//! What a worktree promises: where it goes, what git is asked, and which of those there are belong
//! to agents.

use crate::paths::{
    extension, file_name, file_stem, join_path, last_dot, last_slash, parent, place, tail_trimmed,
    climbs, descend, joined_safely, PathError,
};
use crate::repo::{
    dashed, failure_text, filed, filed_all, is_plain, is_stale, listed_trees, listing_step,
    on_branch, placed, planned, probed, removal, sanitised, short_branch, tree_named, EntryView,
    ListingView, PlacementView, RepoErrorView, TreePlanView, WorktreeView,
};
use crate::seqs::{lemma_first_where, lemma_first_where_is};
use crate::text::{
    begins, class, is_space, lemma_drop_while, lemma_skip_while, lemma_text_order,
    lemma_text_order_chain, lines_of, text_before, trimmed, white, pieces, lemma_first_of_is,
};
use vstd::prelude::*;

verus! {

// -- paths -------------------------------------------------------------------

/// Where a text has a character last.
proof fn lemma_last_slash(s: Seq<char>, k: int)
    requires
        -1 <= k < s.len(),
        k >= 0 ==> s[k] == '/',
        forall|i: int| k < i < s.len() ==> #[trigger] s[i] != '/',
    ensures
        last_slash(s) == k,
    decreases s.len(),
{
    if s.len() > 0 && k < s.len() - 1 {
        let t = s.drop_last();
        assert(s[s.len() - 1] != '/');
        assert forall|i: int| k < i < t.len() implies #[trigger] t[i] != '/' by {
            assert(t[i] == s[i]);
        }
        if k >= 0 {
            assert(t[k] == s[k]);
        }
        lemma_last_slash(t, k);
    }
}

proof fn lemma_last_dot(s: Seq<char>, k: int)
    requires
        -1 <= k < s.len(),
        k >= 0 ==> s[k] == '.',
        forall|i: int| k < i < s.len() ==> #[trigger] s[i] != '.',
    ensures
        last_dot(s) == k,
    decreases s.len(),
{
    if s.len() > 0 && k < s.len() - 1 {
        let t = s.drop_last();
        assert(s[s.len() - 1] != '.');
        assert forall|i: int| k < i < t.len() implies #[trigger] t[i] != '.' by {
            assert(t[i] == s[i]);
        }
        if k >= 0 {
            assert(t[k] == s[k]);
        }
        lemma_last_dot(t, k);
    }
}

/// A name that can stand for itself in a path.
pub open spec fn is_leaf(name: Seq<char>) -> bool {
    &&& name.len() > 0
    &&& forall|i: int| 0 <= i < name.len() ==> #[trigger] name[i] != '/'
    &&& name != seq!['.']
    &&& name != seq!['.', '.']
}

/// A directory, written without a separator behind it or dots at its end.
pub open spec fn is_dir_path(dir: Seq<char>) -> bool {
    &&& dir.len() > 1
    &&& dir.last() != '/'
    &&& dir.last() != '.'
}

/// What stands behind the last separator of a path is its name, and what stands before it is the
/// directory it is in.
pub proof fn law_a_path_is_a_directory_and_a_name(dir: Seq<char>, name: Seq<char>)
    requires
        is_dir_path(dir),
        is_leaf(name),
    ensures
        file_name(dir + seq!['/'] + name) == Some(name),
        parent(dir + seq!['/'] + name) == Some(dir),
        join_path(dir, name) == dir + seq!['/'] + name,
{
    let s = dir + seq!['/'] + name;
    let k = dir.len() as int;
    assert(s[k] == '/');
    assert(s.last() == name.last());
    assert(name[name.len() - 1] != '/');
    if s.last() == '.' && s[s.len() - 2] == '/' {
        if name.len() == 1 {
            assert(name =~= seq!['.']);
        } else {
            assert(s[s.len() - 2] == name[name.len() - 2]);
        }
    }
    assert(tail_trimmed(s) == s);
    assert forall|i: int| k < i < s.len() implies #[trigger] s[i] != '/' by {
        assert(s[i] == name[i - k - 1]);
    }
    lemma_last_slash(s, k);
    assert(s.skip(k + 1) =~= name);
    assert(s.take(k) =~= dir);
    assert(tail_trimmed(dir) == dir);
    assert(name[0] != '/');
    assert(dir.push('/') + name =~= s);
}

/// What stands behind the last dot of a name is its extension, and what stands before it its stem.
pub proof fn law_a_name_is_a_stem_and_an_extension(stem: Seq<char>, ext: Seq<char>)
    requires
        stem.len() > 0,
        ext.len() > 0,
        forall|i: int| 0 <= i < stem.len() ==> #[trigger] stem[i] != '/',
        forall|i: int| 0 <= i < ext.len() ==> #[trigger] ext[i] != '/' && ext[i] != '.',
    ensures
        file_name(stem + seq!['.'] + ext) == Some(stem + seq!['.'] + ext),
        file_stem(stem + seq!['.'] + ext) == Some(stem),
        extension(stem + seq!['.'] + ext) == Some(ext),
{
    let s = stem + seq!['.'] + ext;
    let k = stem.len() as int;
    assert(s.last() == ext.last());
    assert(ext[ext.len() - 1] != '/' && ext[ext.len() - 1] != '.');
    assert(tail_trimmed(s) == s);
    assert forall|i: int| -1 < i < s.len() implies #[trigger] s[i] != '/' by {
        if i < k {
            assert(s[i] == stem[i]);
        } else if i > k {
            assert(s[i] == ext[i - k - 1]);
        }
    }
    lemma_last_slash(s, -1);
    assert(s.skip(0) =~= s);
    assert(s[k] == '.');
    assert forall|i: int| k < i < s.len() implies #[trigger] s[i] != '.' by {
        assert(s[i] == ext[i - k - 1]);
    }
    lemma_last_dot(s, k);
    assert(s.take(k) =~= stem);
    assert(s.skip(k + 1) =~= ext);
    assert(s.len() >= 3);
}

/// A path that starts at the root stands for itself behind any other.
pub proof fn law_an_absolute_path_stands_alone(a: Seq<char>, b: Seq<char>)
    requires
        b.len() > 0,
        b[0] == '/',
    ensures
        join_path(a, b) == b,
{
}

// -- where a worktree goes ---------------------------------------------------

/// An agent's worktree stands beside the project, and is called like it with the agent's name
/// behind a dash; its branch is the agent's, under `horde/`, unless another is asked for.
pub proof fn law_a_worktree_stands_beside_its_project(
    dir: Seq<char>,
    up: Seq<char>,
    project: Seq<char>,
    name: Seq<char>,
    branch: Seq<char>,
    asked: Seq<char>,
)
    requires
        is_dir_path(up),
        is_leaf(project),
        is_leaf(project + "-"@ + name),
        sanitised(asked) == Some(name),
    ensures
        planned(dir, asked, None, Some(up + seq!['/'] + project)) == Ok::<
            TreePlanView,
            RepoErrorView,
        >(
            TreePlanView {
                root: up + seq!['/'] + project,
                path: up + seq!['/'] + (project + "-"@ + name),
                branch: "horde/"@ + name,
            },
        ),
        planned(dir, asked, Some(branch), Some(up + seq!['/'] + project)) == Ok::<
            TreePlanView,
            RepoErrorView,
        >(
            TreePlanView {
                root: up + seq!['/'] + project,
                path: up + seq!['/'] + (project + "-"@ + name),
                branch,
            },
        ),
{
    law_a_path_is_a_directory_and_a_name(up, project);
    law_a_path_is_a_directory_and_a_name(up, project + "-"@ + name);
}

/// There is none for a name that nothing is left of, and none outside a repository.
pub proof fn law_there_is_no_worktree_without_a_name_or_a_repository(
    dir: Seq<char>,
    asked: Seq<char>,
    branch: Option<Seq<char>>,
    root: Option<Seq<char>>,
)
    ensures
        planned(dir, asked, branch, root) is Ok <==> sanitised(asked) is Some && root is Some,
        sanitised(asked) is None ==> planned(dir, asked, branch, root) == Err::<
            TreePlanView,
            RepoErrorView,
        >(RepoErrorView::Unusable(asked)),
        sanitised(asked) is Some && root is None ==> planned(dir, asked, branch, root) == Err::<
            TreePlanView,
            RepoErrorView,
        >(RepoErrorView::NotARepository(dir)),
{
}

/// A name of letters, digits, dashes, underscores and dots, that neither begins nor ends with a
/// dash or a dot, stays as it is.
pub proof fn law_a_plain_name_stays(name: Seq<char>)
    requires
        name.len() > 0,
        forall|i: int| 0 <= i < name.len() ==> is_plain(#[trigger] name[i]),
        name[0] != '-' && name[0] != '.',
        name.last() != '-' && name.last() != '.',
    ensures
        sanitised(name) == Some(name),
{
    reveal_strlit("-.");
    let p = class("-."@, false);
    assert forall|c: char| #[trigger] "-."@.contains(c) implies c == '-' || c == '.' by {
        let i = choose|i: int| 0 <= i < "-."@.len() && "-."@[i] == c;
        assert("-."@[0] == '-' && "-."@[1] == '.');
    }
    assert(is_plain(name[0]));
    assert(is_plain(name[name.len() - 1]));
    assert(!is_space(name[0]));
    assert(!is_space(name.last()));
    lemma_skip_while(name, white(), 0);
    assert(name.subrange(0, name.len() as int) =~= name);
    lemma_drop_while(name, white(), name.len() as int);
    assert(trimmed(name) == name);
    assert(dashed(name) =~= name);
    lemma_skip_while(name, p, 0);
    lemma_drop_while(name, p, name.len() as int);
}

/// What may stand in a name.
pub proof fn law_what_a_name_may_hold(c: char)
    ensures
        is_plain(c) <==> ('a' <= c && c <= 'z') || ('A' <= c && c <= 'Z') || ('0' <= c && c <= '9')
            || c == '-' || c == '_' || c == '.',
{
}

// -- what git is asked -------------------------------------------------------

/// A branch that is not there yet is made, with `-b`; one that is there is checked out, without
/// it. The directory above the path is made first.
pub proof fn law_a_branch_is_made_only_where_there_is_none(
    p: TreePlanView,
    listing: Option<Seq<char>>,
    up: Seq<char>,
)
    requires
        listing is None || on_branch(lines_of(listing->Some_0), p.branch, 0, None) is None,
        parent(p.path) == Some(up),
    ensures
        placed(p, listing, false, false) matches Ok(PlacementView::Create { parent, args })
            && parent == up && args.len() == 5 && args[0] == "worktree"@ && args[1] == "add"@
            && args[2] == p.path && args[3] == "-b"@ && args[4] == p.branch,
        placed(p, listing, false, true) matches Ok(PlacementView::Create { parent, args })
            && parent == up && args.len() == 4 && args[0] == "worktree"@ && args[1] == "add"@
            && args[2] == p.path && args[3] == p.branch,
{
}

/// What stands in the way is not overwritten, whatever branches there are.
pub proof fn law_what_stands_in_the_way_stays(
    p: TreePlanView,
    listing: Option<Seq<char>>,
    branch_exists: bool,
)
    requires
        listing is None || on_branch(lines_of(listing->Some_0), p.branch, 0, None) is None,
    ensures
        placed(p, listing, true, branch_exists) == Err::<PlacementView, RepoErrorView>(
            RepoErrorView::Taken(p.path),
        ),
{
}

/// Removing names the tree, and forces only where that is asked.
pub proof fn law_removing_forces_only_where_asked(
    trees: Seq<WorktreeView>,
    name: Seq<char>,
    k: int,
)
    requires
        0 <= k < trees.len(),
        sanitised(name) == Some(name),
        trees[k].name == name,
        forall|j: int| 0 <= j < k ==> (#[trigger] trees[j]).name != name,
    ensures
        removal(Ok(trees), name, false) matches Ok(r) && r.path == trees[k].path && r.args.len()
            == 3 && r.args[0] == "worktree"@ && r.args[1] == "remove"@ && r.args[2]
            == trees[k].path,
        removal(Ok(trees), name, true) matches Ok(r) && r.path == trees[k].path && r.args.len()
            == 4 && r.args[0] == "worktree"@ && r.args[1] == "remove"@ && r.args[2] == "--force"@
            && r.args[3] == trees[k].path,
{
    let p = tree_named(name);
    assert forall|j: int| 0 <= j < k implies !p(#[trigger] trees[j]) by {}
    lemma_first_where_is(trees, p, k);
}

/// A tree that is not there is not removed.
pub proof fn law_only_what_is_there_is_removed(
    trees: Result<Seq<WorktreeView>, RepoErrorView>,
    name: Seq<char>,
    force: bool,
)
    ensures
        removal(trees, name, force) matches Ok(r) ==> (trees matches Ok(ts) && exists|k: int|
            0 <= k < ts.len() && (#[trigger] ts[k]).path == r.path),
        trees is Err && sanitised(name) is Some && sanitised(sanitised(name)->Some_0) is Some
            ==> removal(trees, name, force) is Err,
{
    if let Ok(ts) = trees {
        if let Some(n) = sanitised(name) {
            if let Some(m) = sanitised(n) {
                lemma_first_where(ts, tree_named(m));
            }
        }
    }
}

// -- what git answers --------------------------------------------------------

/// A record of a listing on a branch `horde/name` is the worktree of that name, at the path it
/// says; one on another branch or on none is nobody's.
pub proof fn law_a_record_is_an_agents_by_its_branch(
    s: ListingView,
    path: Seq<char>,
    name: Seq<char>,
    other: Seq<char>,
)
    requires
        !begins(other, "horde/"@),
        !begins(other, "refs/heads/"@),
    ensures
        ({
            let opened = listing_step(s, "worktree "@ + path);
            let ours = listing_step(opened, "branch refs/heads/horde/"@ + name);
            let theirs = listing_step(opened, "branch refs/heads/"@ + other);
            &&& listing_step(ours, Seq::empty()).found == s.found.push(
                WorktreeView { name, path, branch: "horde/"@ + name, dirty: false },
            )
            &&& listing_step(theirs, Seq::empty()).found == s.found
            &&& listing_step(opened, Seq::empty()).found == s.found
            &&& listing_step(ours, Seq::empty()).path is None
        }),
{
    reveal_strlit("worktree ");
    reveal_strlit("branch ");
    reveal_strlit("branch refs/heads/");
    reveal_strlit("branch refs/heads/horde/");
    reveal_strlit("refs/heads/");
    reveal_strlit("horde/");
    reveal_strlit("detached");
    let w = "worktree "@ + path;
    assert(w.subrange(0, 9) =~= "worktree "@);
    assert(w.skip(9) =~= path);
    let o = "branch refs/heads/horde/"@ + name;
    assert(o[0] == 'b');
    assert("worktree "@[0] == 'w');
    if begins(o, "worktree "@) {
        assert(o.subrange(0, 9)[0] == 'w');
    }
    assert(o.subrange(0, 7) =~= "branch "@);
    let ob = o.skip(7);
    assert(ob =~= "refs/heads/horde/"@ + name) by {
        reveal_strlit("refs/heads/horde/");
    }
    assert(ob.subrange(0, 11) =~= "refs/heads/"@);
    let short = ob.skip(11);
    assert(short =~= "horde/"@ + name);
    assert(short.subrange(0, 6) =~= "horde/"@);
    assert(short.skip(6) =~= name);
    let t = "branch refs/heads/"@ + other;
    assert(t[0] == 'b');
    if begins(t, "worktree "@) {
        assert(t.subrange(0, 9)[0] == 'w');
    }
    assert(t.subrange(0, 7) =~= "branch "@);
    let tb = t.skip(7);
    assert(tb =~= "refs/heads/"@ + other);
    assert(tb.subrange(0, 11) =~= "refs/heads/"@);
    assert(tb.skip(11) =~= other);
    assert("detached"@[0] == 'd');
    assert("horde/"@[0] == 'h');
    if begins("detached"@, "horde/"@) {
        assert("detached"@.subrange(0, 6)[0] == 'h');
    }
}

/// A branch is checked out in the tree that the listing names last before it.
pub proof fn law_a_branch_is_where_it_is_checked_out(
    ls: Seq<Seq<char>>,
    branch: Seq<char>,
    path: Seq<char>,
    at: int,
    i: int,
    j: int,
    had: Option<Seq<char>>,
)
    requires
        0 <= at <= i < j < ls.len(),
        ls[i] == "worktree "@ + path,
        ls[j] == "branch refs/heads/"@ + branch,
        !begins(branch, "refs/heads/"@),
        forall|k: int|
            at <= k < j ==> !(begins(#[trigger] ls[k], "branch "@) && short_branch(ls[k].skip(7))
                == branch),
        forall|k: int| i < k < j ==> !begins(#[trigger] ls[k], "worktree "@),
    ensures
        on_branch(ls, branch, at, had) == Some(path),
    decreases j - at,
{
    reveal_strlit("worktree ");
    reveal_strlit("branch ");
    if at < i {
        assert(!(begins(ls[at], "branch "@) && short_branch(ls[at].skip(7)) == branch));
        let next = if begins(ls[at], "worktree "@) {
            Some(ls[at].skip("worktree "@.len() as int))
        } else {
            had
        };
        law_a_branch_is_where_it_is_checked_out(ls, branch, path, at + 1, i, j, next);
    } else {
        let w = "worktree "@ + path;
        assert(w.subrange(0, 9) =~= "worktree "@);
        assert(w.skip(9) =~= path);
        lemma_then_branch(ls, branch, path, at + 1, j);
    }
}

proof fn lemma_then_branch(
    ls: Seq<Seq<char>>,
    branch: Seq<char>,
    path: Seq<char>,
    at: int,
    j: int,
)
    requires
        0 <= at <= j < ls.len(),
        ls[j] == "branch refs/heads/"@ + branch,
        forall|k: int|
            at <= k < j ==> !(begins(#[trigger] ls[k], "branch "@) && short_branch(ls[k].skip(7))
                == branch),
        forall|k: int| at <= k < j ==> !begins(#[trigger] ls[k], "worktree "@),
    ensures
        on_branch(ls, branch, at, Some(path)) == Some(path),
    decreases j - at,
{
    reveal_strlit("worktree ");
    reveal_strlit("branch ");
    if at < j {
        assert(!begins(ls[at], "worktree "@));
        assert(!(begins(ls[at], "branch "@) && short_branch(ls[at].skip(7)) == branch));
        lemma_then_branch(ls, branch, path, at + 1, j);
    } else {
        reveal_strlit("branch refs/heads/");
        reveal_strlit("refs/heads/");
        let t = ls[j];
        assert(t[0] == 'b');
        if begins(t, "worktree "@) {
            assert(t.subrange(0, 9)[0] == 'w');
        }
        assert(t.subrange(0, 7) =~= "branch "@);
        let tb = t.skip(7);
        assert(tb =~= "refs/heads/"@ + branch);
        assert(tb.subrange(0, 11) =~= "refs/heads/"@);
        assert(tb.skip(11) =~= branch);
    }
}

/// Whether names never go back.
pub open spec fn in_name_order(ts: Seq<WorktreeView>) -> bool {
    forall|i: int, j: int|
        0 <= i < j < ts.len() ==> !text_before((#[trigger] ts[j]).name, (#[trigger] ts[i]).name)
}

proof fn lemma_filed(r: Seq<WorktreeView>, w: WorktreeView)
    requires
        in_name_order(r),
    ensures
        in_name_order(filed(r, w)),
        filed(r, w).len() == r.len() + 1,
        forall|x: WorktreeView| #[trigger] filed(r, w).contains(x) <==> r.contains(x) || x == w,
{
    let p = |x: WorktreeView| text_before(w.name, x.name);
    lemma_first_where(r, p);
    let k = crate::seqs::first_where(r, p);
    let f = filed(r, w);
    r.insert_ensures(k, w);
    assert forall|i: int, j: int| 0 <= i < j < f.len() implies !text_before(
        (#[trigger] f[j]).name,
        (#[trigger] f[i]).name,
    ) by {
        if j < k {
            assert(f[i] == r[i] && f[j] == r[j]);
        } else if j == k {
            assert(f[i] == r[i]);
            assert(!p(r[i]));
        } else if i < k {
            assert(f[i] == r[i] && f[j] == r[j - 1]);
        } else if i == k {
            assert(f[j] == r[j - 1]);
            assert(p(r[k]));
            if text_before(r[j - 1].name, w.name) {
                lemma_text_order_chain(r[j - 1].name, w.name, r[k].name);
                lemma_text_order(r[j - 1].name, r[k].name);
                if j - 1 > k {
                    assert(!text_before(r[j - 1].name, r[k].name));
                }
            }
        } else {
            assert(f[i] == r[i - 1] && f[j] == r[j - 1]);
        }
    }
    assert forall|x: WorktreeView| #[trigger] f.contains(x) <==> r.contains(x) || x == w by {
        if f.contains(x) {
            let i = choose|i: int| 0 <= i < f.len() && f[i] == x;
            if i < k {
                assert(r[i] == x);
            } else if i > k {
                assert(r[i - 1] == x);
            }
        }
        if r.contains(x) {
            let i = choose|i: int| 0 <= i < r.len() && r[i] == x;
            if i < k {
                assert(f[i] == x);
            } else {
                assert(f[i + 1] == x);
            }
        }
        if x == w {
            assert(f[k] == x);
        }
    }
}

/// The list has every worktree there is, each as dirty as it is, in order of name.
pub proof fn law_the_list_is_in_order_of_name(ts: Seq<WorktreeView>, dirty: Seq<bool>)
    requires
        ts.len() == dirty.len(),
    ensures
        in_name_order(filed_all(ts, dirty)),
        filed_all(ts, dirty).len() == ts.len(),
        forall|i: int|
            0 <= i < ts.len() ==> filed_all(ts, dirty).contains(
                (WorktreeView { dirty: dirty[i], ..#[trigger] ts[i] }),
            ),
    decreases ts.len(),
{
    if ts.len() > 0 {
        law_the_list_is_in_order_of_name(ts.drop_last(), dirty.drop_last());
        let r = filed_all(ts.drop_last(), dirty.drop_last());
        let w = WorktreeView { dirty: dirty.last(), ..ts.last() };
        lemma_filed(r, w);
        assert forall|i: int| 0 <= i < ts.len() implies filed_all(ts, dirty).contains(
            (WorktreeView { dirty: dirty[i], ..#[trigger] ts[i] }),
        ) by {
            let x = WorktreeView { dirty: dirty[i], ..ts[i] };
            if i < ts.len() - 1 {
                assert(ts.drop_last()[i] == ts[i] && dirty.drop_last()[i] == dirty[i]);
                assert(r.contains(x));
            }
        }
    }
}

/// There is a list exactly where there is a repository and git answers.
pub proof fn law_there_is_a_list_where_git_answers(
    dir: Seq<char>,
    root: Option<Seq<char>>,
    listing: Result<Seq<char>, Seq<char>>,
    dirty: Seq<bool>,
)
    ensures
        listed_trees(dir, root, listing, dirty) is Ok <==> root is Some && listing is Ok,
        root is None ==> listed_trees(dir, root, listing, dirty) == Err::<
            Seq<WorktreeView>,
            RepoErrorView,
        >(RepoErrorView::NotARepository(dir)),
        root is Some && listing is Err ==> listed_trees(dir, root, listing, dirty) == Err::<
            Seq<WorktreeView>,
            RepoErrorView,
        >(RepoErrorView::Git(listing->Err_0)),
{
}

/// The first line git answers is where the repository is, the second its branch, and it is dirty
/// where the diff is not quiet. Without a branch it is detached.
pub proof fn law_a_repository_is_what_git_says(out: Seq<char>, clean: bool)
    requires
        lines_of(out).len() >= 2,
    ensures
        probed(Some(out), clean) matches Some(r) && r.root == lines_of(out)[0] && r.dirty == !clean
            && (lines_of(out)[1] != "HEAD"@ ==> r.branch == lines_of(out)[1]) && (lines_of(out)[1]
            == "HEAD"@ ==> r.branch == "detached"@),
        probed(None, clean) is None,
{
}

/// What is known of a directory is read again after five seconds, and not before.
pub proof fn law_a_reading_lasts_five_seconds(
    c: Map<Seq<Seq<char>>, EntryView>,
    dir: Seq<char>,
    now: u64,
)
    requires
        c.contains_key(place(dir)),
    ensures
        is_stale(c, dir, now) <==> now - c[place(dir)].at >= 5_000,
{
}

/// Git's own words are passed on, and where it says nothing, which command it was.
pub proof fn law_git_is_quoted(args: Seq<char>, stderr: Seq<char>)
    ensures
        trimmed(stderr).len() > 0 ==> failure_text(args, stderr) == trimmed(stderr),
        trimmed(stderr).len() == 0 ==> failure_text(args, stderr) == "git "@ + args + " failed"@,
{
}

/// A branch is named without what every local branch starts with, and any other as it is.
pub proof fn law_a_branch_is_named_without_its_prefix(name: Seq<char>)
    ensures
        short_branch("refs/heads/"@ + name) == name,
        !begins(name, "refs/heads/"@) ==> short_branch(name) == name,
{
    let b = "refs/heads/"@ + name;
    assert(b.subrange(0, "refs/heads/"@.len() as int) =~= "refs/heads/"@);
    assert(b.skip("refs/heads/"@.len() as int) =~= name);
}

/// A relative path that does not climb leads down from its root; an absolute one is refused, and so
/// is one that climbs.
pub proof fn law_a_relative_path_leads_down(root: Seq<char>, rel: Seq<char>)
    ensures
        rel.len() > 0 && rel[0] == '/' ==> joined_safely(root, rel) == Err::<Seq<char>, _>(
            PathError::Absolute,
        ),
        !(rel.len() > 0 && rel[0] == '/') && climbs(pieces(rel, "/"@)) ==> joined_safely(root, rel)
            == Err::<Seq<char>, _>(PathError::Leaves),
        !(rel.len() > 0 && rel[0] == '/') && !climbs(pieces(rel, "/"@)) ==> joined_safely(root, rel)
            == Ok::<_, PathError>(descend(root, pieces(rel, "/"@))),
        PathError::Absolute.text() == "note paths are relative to the vault"@,
        PathError::Leaves.text() == "note paths cannot leave the vault"@,
{
}

/// A path with one part leads to that part.
pub proof fn law_a_name_leads_to_itself(root: Seq<char>, name: Seq<char>)
    requires
        is_leaf(name),
    ensures
        joined_safely(root, name) == Ok::<_, PathError>(join_path(root, name)),
{
    reveal_strlit("/");
    reveal_strlit(".");
    reveal_strlit("..");
    let set = "/"@;
    assert(set =~= seq!['/']);
    assert("."@ =~= seq!['.']);
    assert(".."@ =~= seq!['.', '.']);
    assert forall|i: int| 0 <= i < name.len() implies !set.contains(#[trigger] name[i]) by {
        if set.contains(name[i]) {
            let k = choose|k: int| 0 <= k < set.len() && set[k] == name[i];
            assert(name[i] == '/');
        }
    }
    lemma_first_of_is(name, set, name.len() as int);
    let parts = pieces(name, set);
    assert(parts =~= seq![name]);
    assert(parts.drop_last() =~= Seq::<Seq<char>>::empty());
    reveal_with_fuel(descend, 2);
    assert(!climbs(parts));
}

} // verus!
