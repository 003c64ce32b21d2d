//! Combining the boolean criteria of an experiment into a verdict.
//!
//! Each experiment computes a handful of criteria (a ratio above a threshold,
//! a fit that is good enough, ...) and passes when enough of them hold, or
//! when all of them hold.

use vstd::prelude::*;

verus! {

/// Number of `true` entries of `s`.
pub open spec fn count_true(s: Seq<bool>) -> nat
    decreases s.len(),
{
    if s.len() == 0 {
        0
    } else {
        count_true(s.drop_last()) + if s.last() { 1nat } else { 0nat }
    }
}

/// Every criterion that holds in `a` also holds in `b`, and both list the
/// same number of criteria.
pub open spec fn weaker_than(a: Seq<bool>, b: Seq<bool>) -> bool {
    &&& a.len() == b.len()
    &&& forall|k: int| 0 <= k < a.len() && #[trigger] a[k] ==> b[k]
}

/// Counts the criteria that hold.
pub fn count_signals(signals: &Vec<bool>) -> (count: usize)
    ensures
        count == count_true(signals@),
        count == signals@.filter(|b: bool| b).len(),
{
    let mut count: usize = 0;
    let mut k: usize = 0;
    while k < signals.len()
        invariant
            k <= signals.len(),
            count == count_true(signals@.take(k as int)),
            count <= k,
        decreases signals.len() - k,
    {
        assert(signals@.take(k as int + 1).drop_last() =~= signals@.take(k as int));
        if signals[k] {
            count = count + 1;
        }
        k = k + 1;
    }
    assert(signals@.take(signals.len() as int) =~= signals@);
    proof {
        lemma_count_is_number_of_true_entries(signals@);
    }
    count
}

/// An experiment that needs `needed` of its criteria passes when at least
/// that many hold.
pub fn enough_signals(signals: &Vec<bool>, needed: usize) -> (passed: bool)
    ensures
        passed == (count_true(signals@) >= needed),
        passed == (signals@.filter(|b: bool| b).len() >= needed),
{
    count_signals(signals) >= needed
}

/// An experiment that needs every criterion passes when all of them hold.
pub fn all_signals(signals: &Vec<bool>) -> (passed: bool)
    ensures
        passed == (forall|k: int| 0 <= k < signals@.len() ==> #[trigger] signals@[k]),
{
    let mut k: usize = 0;
    while k < signals.len()
        invariant
            k <= signals.len(),
            forall|m: int| 0 <= m < k ==> #[trigger] signals@[m],
        decreases signals.len() - k,
    {
        if !signals[k] {
            return false;
        }
        k = k + 1;
    }
    true
}

/// The count is the number of entries that hold, wherever they stand: it is
/// the length of the subsequence of `true` entries.
pub proof fn lemma_count_is_number_of_true_entries(s: Seq<bool>)
    ensures
        count_true(s) == s.filter(|b: bool| b).len(),
    decreases s.len(),
{
    reveal(Seq::filter);
    if s.len() > 0 {
        lemma_count_is_number_of_true_entries(s.drop_last());
    }
}

/// Counting the criteria of two lists one after the other gives the sum of
/// their counts: whether a criterion is counted does not depend on where it
/// stands or on its neighbours.
pub proof fn lemma_count_additive(s: Seq<bool>, t: Seq<bool>)
    ensures
        count_true(s + t) == count_true(s) + count_true(t),
{
    lemma_count_is_number_of_true_entries(s);
    lemma_count_is_number_of_true_entries(t);
    lemma_count_is_number_of_true_entries(s + t);
    Seq::filter_distributes_over_add(s, t, |b: bool| b);
}

/// Appending one criterion adds one to the count when it holds and nothing
/// when it does not.
pub proof fn lemma_count_push(s: Seq<bool>, b: bool)
    ensures
        count_true(s.push(b)) == count_true(s) + if b { 1int } else { 0int },
{
    lemma_count_additive(s, seq![b]);
    assert(s + seq![b] =~= s.push(b));
    lemma_count_is_number_of_true_entries(seq![b]);
    reveal_with_fuel(Seq::filter, 2);
    assert(seq![b].drop_last() =~= Seq::<bool>::empty());
}

/// No more criteria hold than there are criteria.
pub proof fn lemma_count_at_most_len(s: Seq<bool>)
    ensures
        count_true(s) <= s.len(),
    decreases s.len(),
{
    if s.len() > 0 {
        lemma_count_at_most_len(s.drop_last());
    }
}

/// All criteria hold exactly when the count of those that hold is the number
/// of criteria.
pub proof fn lemma_all_iff_count_is_len(s: Seq<bool>)
    ensures
        (forall|k: int| 0 <= k < s.len() ==> #[trigger] s[k]) <==> count_true(s) == s.len(),
    decreases s.len(),
{
    if s.len() > 0 {
        let d = s.drop_last();
        lemma_all_iff_count_is_len(d);
        lemma_count_at_most_len(d);
        if forall|k: int| 0 <= k < s.len() ==> #[trigger] s[k] {
            assert forall|k: int| 0 <= k < d.len() implies #[trigger] d[k] by {
                assert(s[k]);
            }
            assert(s[s.len() - 1]);
        }
        if count_true(s) == s.len() {
            assert forall|k: int| 0 <= k < s.len() implies #[trigger] s[k] by {
                if k < s.len() - 1 {
                    assert(d[k]);
                }
            }
        }
    }
}

/// Making more criteria hold never lowers the count, so an experiment that
/// passed with fewer criteria met still passes with more.
pub proof fn lemma_count_monotone(a: Seq<bool>, b: Seq<bool>)
    requires
        weaker_than(a, b),
    ensures
        count_true(a) <= count_true(b),
    decreases a.len(),
{
    if a.len() > 0 {
        let (da, db) = (a.drop_last(), b.drop_last());
        assert forall|k: int| 0 <= k < da.len() && #[trigger] da[k] implies db[k] by {
            assert(a[k]);
        }
        assert(a[a.len() - 1] ==> b[b.len() - 1]);
        lemma_count_monotone(da, db);
    }
}

} // verus!
