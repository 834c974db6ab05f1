//! Sums and counts over sequences, with the induction lemmas the
//! distribution proofs are built on.

use vstd::prelude::*;

verus! {

/// Sum of a sequence of minor-unit amounts, as a mathematical integer.
pub open spec fn sum64(s: Seq<u64>) -> int
    decreases s.len(),
{
    if s.len() == 0 {
        0
    } else {
        sum64(s.drop_last()) + s.last()
    }
}

/// Sum of the marked elements only.
pub open spec fn sum64_if(s: Seq<u64>, m: Seq<bool>) -> int
    decreases s.len(),
{
    if s.len() == 0 {
        0
    } else {
        sum64_if(s.drop_last(), m.drop_last()) + if m.len() >= 1 && m.last() {
            s.last() as int
        } else {
            0
        }
    }
}

/// Number of `true` entries.
pub open spec fn count_true(m: Seq<bool>) -> int
    decreases m.len(),
{
    if m.len() == 0 {
        0
    } else {
        count_true(m.drop_last()) + if m.last() {
            1int
        } else {
            0int
        }
    }
}

pub proof fn lemma_sum64_push(s: Seq<u64>, x: u64)
    ensures
        sum64(s.push(x)) == sum64(s) + x,
{
    assert(s.push(x).drop_last() =~= s);
}

pub proof fn lemma_sum64_take_succ(s: Seq<u64>, i: int)
    requires
        0 <= i < s.len(),
    ensures
        sum64(s.take(i + 1)) == sum64(s.take(i)) + s[i],
{
    assert(s.take(i + 1).drop_last() =~= s.take(i));
}

pub proof fn lemma_sum64_nonneg(s: Seq<u64>)
    ensures
        sum64(s) >= 0,
    decreases s.len(),
{
    if s.len() > 0 {
        lemma_sum64_nonneg(s.drop_last());
    }
}

pub proof fn lemma_sum64_take_le(s: Seq<u64>, i: int)
    requires
        0 <= i <= s.len(),
    ensures
        sum64(s.take(i)) <= sum64(s),
    decreases s.len() - i,
{
    if i == s.len() {
        assert(s.take(i) =~= s);
    } else {
        lemma_sum64_take_succ(s, i);
        lemma_sum64_take_le(s, i + 1);
    }
}

pub proof fn lemma_sum64_elem_le(s: Seq<u64>, i: int)
    requires
        0 <= i < s.len(),
    ensures
        s[i] <= sum64(s),
    decreases s.len(),
{
    if i == s.len() - 1 {
        lemma_sum64_nonneg(s.drop_last());
    } else {
        lemma_sum64_elem_le(s.drop_last(), i);
    }
}

pub proof fn lemma_sum64_update_incr(s: Seq<u64>, i: int, v: u64)
    requires
        0 <= i < s.len(),
    ensures
        sum64(s.update(i, v)) == sum64(s) - s[i] + v,
    decreases s.len(),
{
    if i == s.len() - 1 {
        assert(s.update(i, v).drop_last() =~= s.drop_last());
        assert(s.update(i, v).last() == v);
    } else {
        assert(s.update(i, v).drop_last() =~= s.drop_last().update(i, v));
        lemma_sum64_update_incr(s.drop_last(), i, v);
    }
}

/// If every unmarked element is zero, the whole sum is the marked sum.
pub proof fn lemma_sum64_all_unmarked_zero(s: Seq<u64>, m: Seq<bool>)
    requires
        s.len() == m.len(),
        forall|i: int| 0 <= i < s.len() && !m[i] ==> s[i] == 0,
    ensures
        sum64(s) == sum64_if(s, m),
    decreases s.len(),
{
    if s.len() > 0 {
        lemma_sum64_all_unmarked_zero(s.drop_last(), m.drop_last());
    }
}

/// The marked sum is at most the number of marks times a common bound.
pub proof fn lemma_sum64_if_bound(s: Seq<u64>, m: Seq<bool>, c: int)
    requires
        s.len() == m.len(),
        forall|i: int| 0 <= i < s.len() ==> s[i] <= c,
    ensures
        sum64_if(s, m) <= count_true(m) * c,
    decreases s.len(),
{
    if s.len() == 0 {
    } else {
        lemma_sum64_if_bound(s.drop_last(), m.drop_last(), c);
        vstd::arithmetic::mul::lemma_mul_is_distributive_add_other_way(
            c,
            count_true(m.drop_last()),
            1,
        );
        if m.last() {
            assert(count_true(m) == count_true(m.drop_last()) + 1);
        } else {
            assert(count_true(m) == count_true(m.drop_last()));
        }
    }
}

pub proof fn lemma_sum64_singleton(x: u64)
    ensures
        sum64(seq![x]) == x,
{
    lemma_sum64_push(Seq::<u64>::empty(), x);
    assert(Seq::<u64>::empty().push(x) =~= seq![x]);
}

pub proof fn lemma_sum64_concat(a: Seq<u64>, b: Seq<u64>)
    ensures
        sum64(a + b) == sum64(a) + sum64(b),
    decreases b.len(),
{
    if b.len() == 0 {
        assert(a + b =~= a);
    } else {
        assert((a + b).drop_last() =~= a + b.drop_last());
        lemma_sum64_concat(a, b.drop_last());
    }
}

/// A sum of elements all bounded by `c` is at most `len * c`.
pub proof fn lemma_sum64_bound(s: Seq<u64>, c: int)
    requires
        forall|i: int| 0 <= i < s.len() ==> s[i] <= c,
    ensures
        sum64(s) <= s.len() * c,
    decreases s.len(),
{
    if s.len() > 0 {
        lemma_sum64_bound(s.drop_last(), c);
        vstd::arithmetic::mul::lemma_mul_is_distributive_add_other_way(
            c,
            s.len() as int - 1,
            1,
        );
    }
}

/// A fully marked sequence has as many marks as elements.
pub proof fn lemma_count_true_all(m: Seq<bool>)
    requires
        forall|i: int| 0 <= i < m.len() ==> m[i],
    ensures
        count_true(m) == m.len(),
    decreases m.len(),
{
    if m.len() > 0 {
        lemma_count_true_all(m.drop_last());
    }
}

pub proof fn lemma_count_true_update(m: Seq<bool>, i: int, v: bool)
    requires
        0 <= i < m.len(),
    ensures
        count_true(m.update(i, v)) == count_true(m) - (if m[i] {
            1int
        } else {
            0int
        }) + (if v {
            1int
        } else {
            0int
        }),
    decreases m.len(),
{
    if i == m.len() - 1 {
        assert(m.update(i, v).drop_last() =~= m.drop_last());
    } else {
        assert(m.update(i, v).drop_last() =~= m.drop_last().update(i, v));
        lemma_count_true_update(m.drop_last(), i, v);
    }
}

} // verus!
