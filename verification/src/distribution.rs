//! Exact-sum distribution: splitting a budget over weighted recipients so
//! that the shares add up to the budget exactly.
//!
//! The rounding policy is the largest-remainder method.  Every position first
//! receives its truncated proportional share `budget * w_i / W`; the units
//! still missing from the budget then go one each to the positions with the
//! largest fractional remainder, earlier positions first on equal remainders.
//! Callers that order recipients by identifier therefore break remainder ties
//! by identifier, never by hash or insertion order.

use vstd::prelude::*;
use vstd::arithmetic::div_mod::{
    lemma_div_is_ordered, lemma_div_multiples_vanish, lemma_fundamental_div_mod, lemma_mod_bound,
};
use vstd::arithmetic::mul::{
    lemma_mul_is_commutative, lemma_mul_is_distributive_add, lemma_mul_upper_bound,
};

use crate::sums::{
    count_true, lemma_count_true_all, lemma_count_true_update, lemma_sum64_all_unmarked_zero,
    lemma_sum64_bound, lemma_sum64_elem_le, lemma_sum64_if_bound, lemma_sum64_nonneg,
    lemma_sum64_push, lemma_sum64_take_le, lemma_sum64_take_succ, lemma_sum64_update_incr, sum64,
};
use crate::RewardsError;

verus! {

/// The truncated ideal share of position `i`: `budget * w_i / W`, rounded down.
pub open spec fn base_share(budget: int, ws: Seq<u64>, i: int) -> int {
    budget * ws[i] / sum64(ws)
}

/// The fractional part of the ideal share of position `i`, scaled by the
/// weight total: `budget * w_i % W`.
pub open spec fn share_remainder(budget: int, ws: Seq<u64>, i: int) -> int {
    budget * ws[i] % sum64(ws)
}

/// Position `j` is served before position `i` when the leftover units are
/// handed out: larger remainder first, earlier position on equal remainders.
pub open spec fn served_before(budget: int, ws: Seq<u64>, j: int, i: int) -> bool {
    share_remainder(budget, ws, j) > share_remainder(budget, ws, i) || (share_remainder(
        budget,
        ws,
        j,
    ) == share_remainder(budget, ws, i) && j < i)
}

/// How many of the positions `0..k` are served before position `i`.
pub open spec fn count_served_before(budget: int, ws: Seq<u64>, i: int, k: int) -> int
    decreases k,
{
    if k <= 0 {
        0
    } else {
        count_served_before(budget, ws, i, k - 1) + if served_before(budget, ws, k - 1, i) {
            1int
        } else {
            0int
        }
    }
}

/// Sum of the truncated shares of positions `0..k`.
pub open spec fn base_total(budget: int, ws: Seq<u64>, k: int) -> int
    decreases k,
{
    if k <= 0 {
        0
    } else {
        base_total(budget, ws, k - 1) + base_share(budget, ws, k - 1)
    }
}

/// Sum of the remainders of positions `0..k`.
pub open spec fn remainder_total(budget: int, ws: Seq<u64>, k: int) -> int
    decreases k,
{
    if k <= 0 {
        0
    } else {
        remainder_total(budget, ws, k - 1) + share_remainder(budget, ws, k - 1)
    }
}

/// Units of the budget not covered by the truncated shares.
pub open spec fn leftover_units(budget: int, ws: Seq<u64>) -> int {
    budget - base_total(budget, ws, ws.len() as int)
}

/// Whether position `i` receives one of the leftover units: exactly the
/// positions served earliest, as many as there are leftover units.
pub open spec fn gets_leftover_unit(budget: int, ws: Seq<u64>, i: int) -> bool {
    count_served_before(budget, ws, i, ws.len() as int) < leftover_units(budget, ws)
}

/// The exact share of position `i` under largest-remainder rounding.
pub open spec fn exact_share(budget: int, ws: Seq<u64>, i: int) -> int {
    base_share(budget, ws, i) + if gets_leftover_unit(budget, ws, i) {
        1int
    } else {
        0int
    }
}

/// A vector of `n` zero shares.
fn zero_shares(n: usize) -> (v: Vec<u64>)
    ensures
        v@.len() == n,
        forall|i: int| 0 <= i < n ==> v@[i] == 0,
        sum64(v@) == 0,
{
    let mut v: Vec<u64> = Vec::new();
    let mut i: usize = 0;
    while i < n
        invariant
            i <= n,
            v@.len() == i,
            forall|j: int| 0 <= j < i ==> v@[j] == 0,
            sum64(v@) == 0,
        decreases n - i,
    {
        proof {
            lemma_sum64_push(v@, 0);
        }
        v.push(0);
        i = i + 1;
    }
    v
}

/// The unmarked position with the largest remainder, earliest on ties.
fn find_best(rems: &Vec<u64>, marks: &Vec<bool>) -> (r: Option<usize>)
    requires
        rems@.len() == marks@.len(),
    ensures
        match r {
            Some(b) => {
                &&& (b as int) < rems@.len()
                &&& !marks@[b as int]
                &&& forall|u: int|
                    0 <= u < rems@.len() && !marks@[u] ==> (rems@[b as int] > rems@[u] || (
                    rems@[b as int] == rems@[u] && b <= u))
            },
            None => forall|u: int| 0 <= u < rems@.len() ==> marks@[u],
        },
{
    let n = rems.len();
    let mut best: usize = 0;
    let mut found = false;
    let mut j: usize = 0;
    while j < n
        invariant
            j <= n,
            n == rems@.len(),
            n == marks@.len(),
            found ==> best < j,
            found ==> !marks@[best as int],
            found ==> forall|u: int|
                0 <= u < j && !marks@[u] ==> (rems@[best as int] > rems@[u] || (rems@[best as int]
                    == rems@[u] && best <= u)),
            !found ==> forall|u: int| 0 <= u < j ==> marks@[u],
        decreases n - j,
    {
        if !marks[j] {
            if !found || rems[j] > rems[best] {
                best = j;
                found = true;
            }
        }
        j = j + 1;
    }
    if found {
        Some(best)
    } else {
        None
    }
}

/// Count of positions `0..k` served before `i` is at least the number of
/// marks among `0..k`, when every marked position is served before `i`.
proof fn lemma_count_served_ge_marks(budget: int, ws: Seq<u64>, m: Seq<bool>, i: int, k: int)
    requires
        m.len() == ws.len(),
        0 <= i < ws.len(),
        0 <= k <= ws.len(),
        forall|j: int| 0 <= j < ws.len() && m[j] ==> served_before(budget, ws, j, i),
    ensures
        count_served_before(budget, ws, i, k) >= count_true(m.take(k)),
    decreases k,
{
    if k > 0 {
        lemma_count_served_ge_marks(budget, ws, m, i, k - 1);
        assert(m.take(k).drop_last() =~= m.take(k - 1));
        assert(m.take(k).last() == m[k - 1]);
    }
}

/// Count of positions `0..k` served before a marked `i` stays below the
/// number of marks, when every position served before `i` is marked.
proof fn lemma_count_served_le_marks(budget: int, ws: Seq<u64>, m: Seq<bool>, i: int, k: int)
    requires
        m.len() == ws.len(),
        0 <= i < ws.len(),
        0 <= k <= ws.len(),
        m[i],
        forall|j: int| 0 <= j < ws.len() && served_before(budget, ws, j, i) ==> m[j],
    ensures
        count_served_before(budget, ws, i, k) <= count_true(m.take(k)) - if i < k {
            1int
        } else {
            0int
        },
    decreases k,
{
    if k > 0 {
        lemma_count_served_le_marks(budget, ws, m, i, k - 1);
        assert(m.take(k).drop_last() =~= m.take(k - 1));
        assert(m.take(k).last() == m[k - 1]);
        if k - 1 == i {
            assert(!served_before(budget, ws, i, i));
        }
    }
}

/// Distribute `budget` over `weights`, shares summing to the budget exactly.
///
/// Errors with `InvalidInput` exactly when every weight is zero but the
/// budget is not: a zero-weight split has no defined proportion.  A zero
/// budget yields all-zero shares whatever the weights.  Otherwise each share
/// is the largest-remainder share of its position, so the result is pinned
/// by the inputs alone and differs from the ideal proportional share by
/// strictly less than one minor unit.
pub fn distribute(budget: u64, weights: &Vec<u64>) -> (r: Result<Vec<u64>, RewardsError>)
    requires
        sum64(weights@) <= u64::MAX,
    ensures
        r is Err <==> (sum64(weights@) == 0 && budget > 0),
        match r {
            Ok(shares) => {
                &&& shares@.len() == weights@.len()
                &&& sum64(shares@) == budget
                &&& sum64(weights@) > 0 ==> forall|i: int|
                    0 <= i < weights@.len() ==> shares@[i] == exact_share(
                        budget as int,
                        weights@,
                        i,
                    )
                &&& sum64(weights@) == 0 ==> forall|i: int|
                    0 <= i < weights@.len() ==> shares@[i] == 0
                &&& sum64(weights@) > 0 ==> forall|i: int|
                    0 <= i < weights@.len() ==> (shares@[i] * sum64(weights@) - (budget as int)
                        * weights@[i] < sum64(weights@) && (budget as int) * weights@[i]
                        - shares@[i] * sum64(weights@) < sum64(weights@))
            },
            Err(e) => e == RewardsError::InvalidInput,
        },
{
    let ghost w = weights@;
    let ghost b = budget as int;
    let n = weights.len();

    // Total weight.
    let mut wsum: u64 = 0;
    let mut i: usize = 0;
    while i < n
        invariant
            i <= n,
            n == w.len(),
            w == weights@,
            sum64(w) <= u64::MAX,
            wsum == sum64(w.take(i as int)),
        decreases n - i,
    {
        proof {
            lemma_sum64_take_succ(w, i as int);
            lemma_sum64_take_le(w, i as int + 1);
        }
        wsum = wsum + weights[i];
        i = i + 1;
    }
    proof {
        assert(w.take(n as int) =~= w);
    }

    if wsum == 0 {
        if budget == 0 {
            return Ok(zero_shares(n));
        } else {
            return Err(RewardsError::InvalidInput);
        }
    }
    let ghost tw = sum64(w);

    // Truncated shares and remainders.
    let mut bases: Vec<u64> = Vec::new();
    let mut rems: Vec<u64> = Vec::new();
    let mut base_sum: u64 = 0;
    let mut i: usize = 0;
    while i < n
        invariant
            i <= n,
            n == w.len(),
            w == weights@,
            tw == sum64(w),
            0 < tw <= u64::MAX,
            wsum == tw,
            bases@.len() == i,
            rems@.len() == i,
            forall|j: int| 0 <= j < i ==> bases@[j] == base_share(b, w, j),
            forall|j: int| 0 <= j < i ==> rems@[j] == share_remainder(b, w, j),
            base_sum == base_total(b, w, i as int),
            base_sum == sum64(bases@),
            sum64(rems@) == remainder_total(b, w, i as int),
            tw * base_total(b, w, i as int) + remainder_total(b, w, i as int) == b * sum64(
                w.take(i as int),
            ),
            base_sum <= budget,
            b == budget as int,
        decreases n - i,
    {
        let wi = weights[i];
        proof {
            lemma_mul_upper_bound(b, u64::MAX as int, wi as int, u64::MAX as int);
        }
        let prod: u128 = (budget as u128) * (wi as u128);
        let q128: u128 = prod / (wsum as u128);
        let r128: u128 = prod % (wsum as u128);
        proof {
            lemma_mod_bound(b * (wi as int), tw);
            lemma_sum64_elem_le(w, i as int);
            assert(b * (wi as int) <= b * tw) by (nonlinear_arith)
                requires
                    0 <= b,
                    0 <= wi as int <= tw,
            ;
            lemma_mul_is_commutative(b, tw);
            lemma_div_multiples_vanish(b, tw);
            lemma_div_is_ordered(b * (wi as int), b * tw, tw);
            assert(q128 as int == base_share(b, w, i as int));
            assert(r128 as int == share_remainder(b, w, i as int));
            assert(q128 <= budget);
        }
        let base = q128 as u64;
        let rem = r128 as u64;
        proof {
            // The running identity extends by one position.
            lemma_fundamental_div_mod(b * (wi as int), tw);
            lemma_sum64_take_succ(w, i as int);
            lemma_mul_is_distributive_add(b, sum64(w.take(i as int)), wi as int);
            lemma_mul_is_distributive_add(
                tw,
                base_total(b, w, i as int),
                base_share(b, w, i as int),
            );
            lemma_sum64_push(bases@, base);
            lemma_sum64_push(rems@, rem);
            // The new truncated total still fits under the budget.
            lemma_sum64_take_le(w, i as int + 1);
            assert(b * sum64(w.take(i as int + 1)) <= b * tw) by (nonlinear_arith)
                requires
                    0 <= b,
                    sum64(w.take(i as int + 1)) <= tw,
            ;
            assert(remainder_total(b, w, i as int) >= 0) by {
                lemma_sum64_nonneg(rems@);
            }
            assert(base_total(b, w, i as int + 1) <= b) by (nonlinear_arith)
                requires
                    tw * base_total(b, w, i as int + 1) + share_remainder(b, w, i as int)
                        + remainder_total(b, w, i as int) == b * sum64(w.take(i as int + 1)),
                    b * sum64(w.take(i as int + 1)) <= b * tw,
                    share_remainder(b, w, i as int) >= 0,
                    remainder_total(b, w, i as int) >= 0,
                    tw > 0,
            ;
        }
        bases.push(base);
        rems.push(rem);
        base_sum = base_sum + base;
        i = i + 1;
    }
    proof {
        assert(w.take(n as int) =~= w);
        lemma_mul_is_commutative(b, tw);
    }
    // tw * base_total(n) + remainder_total(n) == b * tw

    let leftover = budget - base_sum;
    proof {
        assert(leftover as int == leftover_units(b, w));
        // remainder_total(n) == tw * leftover
        assert(tw * (leftover as int) == remainder_total(b, w, n as int)) by (nonlinear_arith)
            requires
                tw * base_total(b, w, n as int) + remainder_total(b, w, n as int) == tw * b,
                leftover as int == b - base_total(b, w, n as int),
        ;
        // Fewer leftover units than positions: every remainder is below the
        // weight total.
        assert forall|j: int| 0 <= j < n implies rems@[j] <= tw - 1 by {
            vstd::arithmetic::mul::lemma_mul_nonnegative(b, w[j] as int);
            lemma_mod_bound(b * (w[j] as int), tw);
        }
        lemma_sum64_bound(rems@, tw - 1);
        assert(leftover as int <= n as int) by (nonlinear_arith)
            requires
                tw * (leftover as int) == sum64(rems@),
                sum64(rems@) <= n as int * (tw - 1),
                tw > 0,
                leftover as int >= 0,
                n as int >= 0,
        ;
    }

    // Hand the leftover units out, largest remainder first.
    let mut shares = bases;
    let mut marks: Vec<bool> = Vec::new();
    let mut i: usize = 0;
    while i < n
        invariant
            i <= n,
            marks@.len() == i,
            forall|j: int| 0 <= j < i ==> !marks@[j],
            count_true(marks@) == 0,
        decreases n - i,
    {
        proof {
            assert(marks@.push(false).drop_last() =~= marks@);
        }
        marks.push(false);
        i = i + 1;
    }

    let ghost bs = shares@;
    let mut t: u64 = 0;
    while t < leftover
        invariant
            t <= leftover,
            leftover as int <= n as int,
            sum64(bs) == base_sum,
            n == w.len(),
            w == weights@,
            tw == sum64(w),
            0 < tw <= u64::MAX,
            b == budget as int,
            bs.len() == n,
            shares@.len() == n,
            marks@.len() == n,
            rems@.len() == n,
            forall|j: int| 0 <= j < n ==> bs[j] == base_share(b, w, j),
            forall|j: int| 0 <= j < n ==> rems@[j] == share_remainder(b, w, j),
            base_sum == base_total(b, w, n as int),
            leftover as int == leftover_units(b, w),
            base_sum + leftover == budget,
            tw * (leftover as int) == remainder_total(b, w, n as int),
            sum64(rems@) == remainder_total(b, w, n as int),
            count_true(marks@) == t,
            forall|j: int|
                0 <= j < n ==> shares@[j] == bs[j] + if marks@[j] {
                    1int
                } else {
                    0int
                },
            sum64(shares@) == base_sum + t,
            forall|p: int, u: int|
                0 <= p < n && 0 <= u < n && marks@[p] && !marks@[u] ==> #[trigger] served_before(
                    b,
                    w,
                    p,
                    u,
                ),
            forall|p: int| 0 <= p < n && #[trigger] marks@[p] ==> share_remainder(b, w, p) > 0,
        decreases leftover - t,
    {
        let picked = find_best(&rems, &marks);
        // A best position always exists while units are left: there are
        // fewer marks than positions.
        let best = match picked {
            Some(bi) => bi,
            None => {
                proof {
                    lemma_count_true_all(marks@);
                    // count_true(marks@) == t < leftover <= n == count_true
                    assert(false);
                }
                0
            },
        };
        proof {
            // The picked remainder is positive: otherwise every unmarked
            // remainder is zero and the marked ones cannot cover the total.
            if rems@[best as int] == 0 {
                lemma_sum64_all_unmarked_zero(rems@, marks@);
                lemma_sum64_if_bound(rems@, marks@, tw - 1);
                assert(false) by (nonlinear_arith)
                    requires
                        tw * (leftover as int) == sum64(rems@),
                        sum64(rems@) <= (t as int) * (tw - 1),
                        (t as int) < leftover as int,
                        tw > 0,
                        t as int >= 0,
                ;
            }
            // The share being bumped is still its truncated value.
            lemma_sum64_elem_le(bs, best as int);
            lemma_sum64_nonneg(bs);
            lemma_sum64_update_incr(shares@, best as int, (shares@[best as int] + 1) as u64);
            lemma_count_true_update(marks@, best as int, true);
        }
        let bumped = shares[best] + 1;
        shares[best] = bumped;
        marks[best] = true;
        t = t + 1;
    }

    proof {
        assert(marks@.take(n as int) =~= marks@);
        assert forall|i: int| 0 <= i < n implies shares@[i] == exact_share(b, w, i) by {
            if marks@[i] {
                assert forall|j: int|
                    0 <= j < n && served_before(b, w, j, i) implies marks@[j] by {
                    if !marks@[j] {
                        assert(served_before(b, w, i, j));
                    }
                }
                lemma_count_served_le_marks(b, w, marks@, i, n as int);
            } else {
                lemma_count_served_ge_marks(b, w, marks@, i, n as int);
            }
        }
        // Proportionality: each share misses its ideal proportion by less
        // than one unit, scaled by the weight total.
        assert forall|i: int|
            0 <= i < n implies (shares@[i] * tw - b * w[i] < tw && b * w[i] - shares@[i] * tw
            < tw) by {
            lemma_fundamental_div_mod(b * (w[i] as int), tw);
            lemma_mod_bound(b * (w[i] as int), tw);
            assert(shares@[i] == base_share(b, w, i) + if marks@[i] {
                1int
            } else {
                0int
            });
            assert((base_share(b, w, i) + 1) * tw == base_share(b, w, i) * tw + tw)
                by (nonlinear_arith);
            assert(base_share(b, w, i) * tw == tw * base_share(b, w, i)) by (nonlinear_arith);
        }
    }
    Ok(shares)
}

/// Two share vectors computed for the same inputs are identical: the
/// contract of `distribute` pins every element, so a rerun with the same
/// budget and weights can never produce a different allocation.
pub proof fn lemma_distribution_deterministic(budget: int, ws: Seq<u64>, r1: Seq<u64>, r2: Seq<u64>)
    requires
        r1.len() == ws.len(),
        r2.len() == ws.len(),
        forall|i: int| 0 <= i < ws.len() ==> r1[i] == exact_share(budget, ws, i),
        forall|i: int| 0 <= i < ws.len() ==> r2[i] == exact_share(budget, ws, i),
    ensures
        r1 == r2,
{
    assert(r1 =~= r2);
}

} // verus!
