//! Per-cell working tables shared by the breadth-first passes, and the
//! counting spec used to bound their rounds.

use vstd::prelude::*;

verus! {

/// How many entries of the sequence are true.
pub open spec fn count_true(s: Seq<bool>) -> int
    decreases s.len(),
{
    if s.len() == 0 {
        0
    } else {
        count_true(s.drop_last()) + if s.last() {
            1int
        } else {
            0int
        }
    }
}

/// The count is between zero and the length.
pub proof fn lemma_count_true_bounds(s: Seq<bool>)
    ensures
        0 <= count_true(s) <= s.len(),
    decreases s.len(),
{
    if s.len() > 0 {
        lemma_count_true_bounds(s.drop_last());
    }
}

/// Turning a false entry true raises the count by one.
pub proof fn lemma_count_true_update(s: Seq<bool>, i: int)
    requires
        0 <= i < s.len(),
        !s[i],
    ensures
        count_true(s.update(i, true)) == count_true(s) + 1,
    decreases s.len(),
{
    let t = s.update(i, true);
    if i == s.len() - 1 {
        assert(t.drop_last() =~= s.drop_last());
    } else {
        assert(t.drop_last() =~= s.drop_last().update(i, true));
        lemma_count_true_update(s.drop_last(), i);
    }
}

/// A table with no true entry counts zero.
pub proof fn lemma_count_all_false(s: Seq<bool>)
    requires
        forall|i: int| 0 <= i < s.len() ==> !s[i],
    ensures
        count_true(s) == 0,
    decreases s.len(),
{
    if s.len() > 0 {
        lemma_count_all_false(s.drop_last());
    }
}

/// A table with a true entry counts at least one.
pub proof fn lemma_count_true_positive(s: Seq<bool>, i: int)
    requires
        0 <= i < s.len(),
        s[i],
    ensures
        count_true(s) >= 1,
    decreases s.len(),
{
    if i == s.len() - 1 {
        lemma_count_true_bounds(s.drop_last());
    } else {
        lemma_count_true_positive(s.drop_last(), i);
    }
}

/// Marking at least one extra entry raises the count.
pub proof fn lemma_count_true_grows(s: Seq<bool>, t: Seq<bool>, i: int)
    requires
        s.len() == t.len(),
        forall|k: int| 0 <= k < s.len() ==> (s[k] ==> t[k]),
        0 <= i < s.len(),
        t[i],
        !s[i],
    ensures
        count_true(t) >= count_true(s) + 1,
    decreases s.len(),
{
    if s.len() > 0 {
        if i == s.len() - 1 {
            lemma_count_true_pointwise(s.drop_last(), t.drop_last());
        } else {
            lemma_count_true_grows(s.drop_last(), t.drop_last(), i);
        }
    }
}

/// Pointwise implication never lowers the count.
pub proof fn lemma_count_true_pointwise(s: Seq<bool>, t: Seq<bool>)
    requires
        s.len() == t.len(),
        forall|k: int| 0 <= k < s.len() ==> (s[k] ==> t[k]),
    ensures
        count_true(t) >= count_true(s),
    decreases s.len(),
{
    if s.len() > 0 {
        lemma_count_true_pointwise(s.drop_last(), t.drop_last());
    }
}

/// A table of `n` copies of the same truth value.
pub fn bool_table(n: usize, init: bool) -> (v: Vec<bool>)
    ensures
        v@.len() == n,
        forall|i: int| 0 <= i < n ==> v@[i] == init,
{
    let mut v: Vec<bool> = Vec::new();
    let mut k: usize = 0;
    while k < n
        invariant
            k <= n,
            v@.len() == k,
            forall|i: int| 0 <= i < k ==> v@[i] == init,
        decreases n - k,
    {
        v.push(init);
        k = k + 1;
    }
    v
}

/// A table of `n` zero counters.
pub fn zero_table(n: usize) -> (v: Vec<u64>)
    ensures
        v@.len() == n,
        forall|i: int| 0 <= i < n ==> v@[i] == 0u64,
{
    let mut v: Vec<u64> = Vec::new();
    let mut k: usize = 0;
    while k < n
        invariant
            k <= n,
            v@.len() == k,
            forall|i: int| 0 <= i < k ==> v@[i] == 0u64,
        decreases n - k,
    {
        v.push(0);
        k = k + 1;
    }
    v
}

} // verus!
