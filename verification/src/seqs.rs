//! Finding and counting in sequences.

use vstd::prelude::*;

verus! {

/// The first position that `p` accepts, or the length where it accepts none.
pub open spec fn first_where<A>(s: Seq<A>, p: spec_fn(A) -> bool) -> int
    decreases s.len(),
{
    if s.len() == 0 || p(s[0]) {
        0
    } else {
        1 + first_where(s.drop_first(), p)
    }
}

/// `first_where` is the position before which nothing is accepted.
pub proof fn lemma_first_where<A>(s: Seq<A>, p: spec_fn(A) -> bool)
    ensures
        0 <= first_where(s, p) <= s.len(),
        forall|i: int| 0 <= i < first_where(s, p) ==> !p(#[trigger] s[i]),
        first_where(s, p) < s.len() ==> p(s[first_where(s, p)]),
    decreases s.len(),
{
    if s.len() != 0 && !p(s[0]) {
        let t = s.drop_first();
        lemma_first_where(t, p);
        assert forall|i: int| 0 <= i < first_where(s, p) implies !p(#[trigger] s[i]) by {
            if i > 0 {
                assert(t[i - 1] == s[i]);
            }
        }
    }
}

/// A position that is accepted, with nothing accepted before it, is the first.
pub proof fn lemma_first_where_is<A>(s: Seq<A>, p: spec_fn(A) -> bool, k: int)
    requires
        0 <= k <= s.len(),
        forall|i: int| 0 <= i < k ==> !p(#[trigger] s[i]),
        k < s.len() ==> p(s[k]),
    ensures
        first_where(s, p) == k,
{
    lemma_first_where(s, p);
    let f = first_where(s, p);
    if f < k {
        assert(p(s[f]));
    }
    if k < f {
        assert(!p(s[k]));
    }
}

/// How many items `p` accepts.
pub open spec fn count_where<A>(s: Seq<A>, p: spec_fn(A) -> bool) -> nat
    decreases s.len(),
{
    if s.len() == 0 {
        0
    } else {
        count_where(s.drop_last(), p) + (if p(s.last()) {
            1nat
        } else {
            0
        })
    }
}

/// One more item counts as itself.
pub proof fn lemma_count_take<A>(s: Seq<A>, p: spec_fn(A) -> bool, i: int)
    requires
        0 <= i < s.len(),
    ensures
        count_where(s.take(i + 1), p) == count_where(s.take(i), p) + (if p(s[i]) {
            1nat
        } else {
            0
        }),
{
    assert(s.take(i + 1).drop_last() =~= s.take(i));
    assert(s.take(i + 1).last() == s[i]);
}

/// A count never exceeds the length.
pub proof fn lemma_count_bound<A>(s: Seq<A>, p: spec_fn(A) -> bool)
    ensures
        count_where(s, p) <= s.len(),
    decreases s.len(),
{
    if s.len() > 0 {
        lemma_count_bound(s.drop_last(), p);
    }
}

/// Where nothing is accepted, nothing is counted.
pub proof fn lemma_count_none<A>(s: Seq<A>, p: spec_fn(A) -> bool)
    requires
        forall|i: int| 0 <= i < s.len() ==> !p(#[trigger] s[i]),
    ensures
        count_where(s, p) == 0,
    decreases s.len(),
{
    if s.len() > 0 {
        let t = s.drop_last();
        assert(!p(s[s.len() - 1]));
        assert forall|i: int| 0 <= i < t.len() implies !p(#[trigger] t[i]) by {
            assert(t[i] == s[i]);
        }
        lemma_count_none(t, p);
    }
}

/// What is accepted somewhere is counted.
pub proof fn lemma_count_some<A>(s: Seq<A>, p: spec_fn(A) -> bool, i: int)
    requires
        0 <= i < s.len(),
        p(s[i]),
    ensures
        count_where(s, p) > 0,
    decreases s.len(),
{
    if i < s.len() - 1 {
        let t = s.drop_last();
        assert(t[i] == s[i]);
        lemma_count_some(t, p, i);
    }
}

/// The items that `p` accepts, each as `f` makes it, in order.
pub open spec fn pick<A, B>(
    s: Seq<A>,
    p: spec_fn(A) -> bool,
    f: spec_fn(A) -> B,
) -> Seq<B>
    decreases s.len(),
{
    if s.len() == 0 {
        Seq::empty()
    } else if p(s.last()) {
        pick(s.drop_last(), p, f).push(f(s.last()))
    } else {
        pick(s.drop_last(), p, f)
    }
}

/// One more item is picked where it is accepted.
pub proof fn lemma_pick_take<A, B>(s: Seq<A>, p: spec_fn(A) -> bool, f: spec_fn(A) -> B, i: int)
    requires
        0 <= i < s.len(),
    ensures
        pick(s.take(i + 1), p, f) == (if p(s[i]) {
            pick(s.take(i), p, f).push(f(s[i]))
        } else {
            pick(s.take(i), p, f)
        }),
{
    assert(s.take(i + 1).drop_last() =~= s.take(i));
    assert(s.take(i + 1).last() == s[i]);
}

/// Everything picked came from an item that was accepted.
pub proof fn lemma_pick_sound<A, B>(
    s: Seq<A>,
    p: spec_fn(A) -> bool,
    f: spec_fn(A) -> B,
    k: int,
) -> (i: int)
    requires
        0 <= k < pick(s, p, f).len(),
    ensures
        0 <= i < s.len(),
        p(s[i]),
        pick(s, p, f)[k] == f(s[i]),
    decreases s.len(),
{
    let t = s.drop_last();
    if p(s.last()) && k == pick(s, p, f).len() - 1 {
        s.len() - 1
    } else {
        let i = lemma_pick_sound(t, p, f, k);
        assert(t[i] == s[i]);
        i
    }
}

/// Every accepted item is picked.
pub proof fn lemma_pick_complete<A, B>(
    s: Seq<A>,
    p: spec_fn(A) -> bool,
    f: spec_fn(A) -> B,
    i: int,
) -> (k: int)
    requires
        0 <= i < s.len(),
        p(s[i]),
    ensures
        0 <= k < pick(s, p, f).len(),
        pick(s, p, f)[k] == f(s[i]),
    decreases s.len(),
{
    if i == s.len() - 1 {
        pick(s, p, f).len() - 1
    } else {
        let t = s.drop_last();
        assert(t[i] == s[i]);
        lemma_pick_complete(t, p, f, i)
    }
}

} // verus!
