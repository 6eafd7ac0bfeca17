//! Sums of an integer-valued function over a sequence, with the lemmas the
//! accounting proofs need.

use vstd::prelude::*;

verus! {

/// The sum of `f` over the elements of `s`.
pub open spec fn seq_sum<A>(s: Seq<A>, f: spec_fn(A) -> int) -> int
    decreases s.len(),
{
    if s.len() == 0 {
        0
    } else {
        seq_sum(s.drop_last(), f) + f(s.last())
    }
}

/// Appending an element adds its value to the sum.
pub proof fn lemma_seq_sum_push<A>(s: Seq<A>, y: A, f: spec_fn(A) -> int)
    ensures
        seq_sum(s.push(y), f) == seq_sum(s, f) + f(y),
{
    assert(s.push(y).drop_last() =~= s);
}

/// The sum over one more element of a prefix.
pub proof fn lemma_seq_sum_take_succ<A>(s: Seq<A>, i: int, f: spec_fn(A) -> int)
    requires
        0 <= i < s.len(),
    ensures
        seq_sum(s.take(i + 1), f) == seq_sum(s.take(i), f) + f(s[i]),
{
    assert(s.take(i + 1).drop_last() =~= s.take(i));
    assert(s.take(i + 1).last() == s[i]);
}

/// A sum splits at any index.
pub proof fn lemma_seq_sum_split<A>(s: Seq<A>, i: int, f: spec_fn(A) -> int)
    requires
        0 <= i <= s.len(),
    ensures
        seq_sum(s, f) == seq_sum(s.take(i), f) + seq_sum(s.skip(i), f),
    decreases s.len(),
{
    if i == s.len() {
        assert(s.take(i) =~= s);
        assert(s.skip(i) =~= Seq::<A>::empty());
    } else {
        let d = s.drop_last();
        lemma_seq_sum_split(d, i, f);
        assert(d.take(i) =~= s.take(i));
        assert(s.skip(i) =~= d.skip(i).push(s.last()));
        lemma_seq_sum_push(d.skip(i), s.last(), f);
    }
}

/// A sum of pointwise nonnegative values is nonnegative.
pub proof fn lemma_seq_sum_nonneg<A>(s: Seq<A>, f: spec_fn(A) -> int)
    requires
        forall|k: int| 0 <= k < s.len() ==> f(s[k]) >= 0,
    ensures
        seq_sum(s, f) >= 0,
    decreases s.len(),
{
    if s.len() > 0 {
        lemma_seq_sum_nonneg(s.drop_last(), f);
    }
}

/// With nonnegative values, a prefix sum is at most the whole sum.
pub proof fn lemma_seq_sum_prefix_le<A>(s: Seq<A>, i: int, f: spec_fn(A) -> int)
    requires
        0 <= i <= s.len(),
        forall|k: int| 0 <= k < s.len() ==> f(s[k]) >= 0,
    ensures
        seq_sum(s.take(i), f) <= seq_sum(s, f),
{
    lemma_seq_sum_split(s, i, f);
    assert(forall|k: int|
        0 <= k < s.skip(i).len() ==> f(#[trigger] s.skip(i)[k]) >= 0);
    lemma_seq_sum_nonneg(s.skip(i), f);
}

/// Replacing one element changes the sum by the difference of its values.
pub proof fn lemma_seq_sum_update<A>(s: Seq<A>, i: int, y: A, f: spec_fn(A) -> int)
    requires
        0 <= i < s.len(),
    ensures
        seq_sum(s.update(i, y), f) == seq_sum(s, f) + f(y) - f(s[i]),
    decreases s.len(),
{
    let u = s.update(i, y);
    if i == s.len() - 1 {
        assert(u.drop_last() =~= s.drop_last());
        assert(u.last() == y);
    } else {
        assert(u.drop_last() =~= s.drop_last().update(i, y));
        assert(u.last() == s.last());
        lemma_seq_sum_update(s.drop_last(), i, y, f);
    }
}

} // verus!
