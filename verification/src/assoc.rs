//! Sorted association lists keyed by identifier strings.
//!
//! The allocators keep keyed data (reviews per proposal, funds per
//! proposal, ticket units per advisor) as vectors of pairs held strictly
//! sorted by key, so that every result has one canonical, deterministic
//! order.  `assoc_insert` is the single insertion rule they all share:
//! a present key has its value merged, an absent key is placed at its
//! ordered position.

use vstd::prelude::*;

use crate::order::{lemma_str_lt_transitive, lemma_str_lt_trichotomy, sorted_by_first, str_lt};

verus! {

/// Insert `(key, val)` into the association list `s`: merge onto an equal
/// key, otherwise place before the first larger key.
pub open spec fn assoc_insert<T>(
    s: Seq<(Seq<char>, T)>,
    key: Seq<char>,
    val: T,
    merge: spec_fn(T, T) -> T,
) -> Seq<(Seq<char>, T)>
    decreases s.len(),
{
    if s.len() == 0 {
        seq![(key, val)]
    } else if s[0].0 == key {
        seq![(s[0].0, merge(s[0].1, val))] + s.drop_first()
    } else if str_lt(key, s[0].0) {
        seq![(key, val)] + s
    } else {
        seq![s[0]] + assoc_insert(s.drop_first(), key, val, merge)
    }
}

/// Walking past positions whose key is neither equal to `key` nor after it
/// leaves them untouched.
pub proof fn lemma_assoc_insert_skip<T>(
    s: Seq<(Seq<char>, T)>,
    key: Seq<char>,
    val: T,
    merge: spec_fn(T, T) -> T,
    pos: int,
)
    requires
        0 <= pos <= s.len(),
        forall|j: int| 0 <= j < pos ==> (#[trigger] s[j].0) != key && !str_lt(key, s[j].0),
    ensures
        assoc_insert(s, key, val, merge) == s.take(pos) + assoc_insert(
            s.skip(pos),
            key,
            val,
            merge,
        ),
    decreases pos,
{
    if pos == 0 {
        assert(s.skip(0) =~= s);
        assert(s.take(0) + assoc_insert(s, key, val, merge) =~= assoc_insert(s, key, val, merge));
    } else {
        let rest = s.drop_first();
        assert(forall|j: int|
            0 <= j < pos - 1 ==> (#[trigger] rest[j].0) != key && !str_lt(key, rest[j].0)) by {
            assert(forall|j: int| 0 <= j < pos - 1 ==> rest[j] == s[j + 1]);
        }
        lemma_assoc_insert_skip(rest, key, val, merge, pos - 1);
        assert(rest.skip(pos - 1) =~= s.skip(pos));
        assert(seq![s[0]] + (rest.take(pos - 1) + assoc_insert(s.skip(pos), key, val, merge))
            =~= s.take(pos) + assoc_insert(s.skip(pos), key, val, merge));
    }
}

/// Every key of the inserted list is the new key or an old key.
pub proof fn lemma_assoc_insert_keys<T>(
    s: Seq<(Seq<char>, T)>,
    key: Seq<char>,
    val: T,
    merge: spec_fn(T, T) -> T,
)
    ensures
        forall|j: int|
            0 <= j < assoc_insert(s, key, val, merge).len() ==> (#[trigger] assoc_insert(
                s,
                key,
                val,
                merge,
            )[j].0) == key || exists|i: int| 0 <= i < s.len() && s[i].0 == assoc_insert(
                s,
                key,
                val,
                merge,
            )[j].0,
    decreases s.len(),
{
    let res = assoc_insert(s, key, val, merge);
    if s.len() == 0 {
    } else if s[0].0 == key {
        assert forall|j: int|
            0 <= j < res.len() implies (#[trigger] res[j].0) == key || exists|i: int|
            0 <= i < s.len() && s[i].0 == res[j].0 by {
            if j > 0 {
                assert(res[j] == s[j]);
            }
        }
    } else if str_lt(key, s[0].0) {
        assert forall|j: int|
            0 <= j < res.len() implies (#[trigger] res[j].0) == key || exists|i: int|
            0 <= i < s.len() && s[i].0 == res[j].0 by {
            if j > 0 {
                assert(res[j] == s[j - 1]);
            }
        }
    } else {
        let rest = s.drop_first();
        lemma_assoc_insert_keys(rest, key, val, merge);
        assert forall|j: int|
            0 <= j < res.len() implies (#[trigger] res[j].0) == key || exists|i: int|
            0 <= i < s.len() && s[i].0 == res[j].0 by {
            if j == 0 {
                assert(s[0].0 == res[0].0);
            } else {
                assert(res[j] == assoc_insert(rest, key, val, merge)[j - 1]);
                if res[j].0 != key {
                    let i = choose|i: int| 0 <= i < rest.len() && rest[i].0 == res[j].0;
                    assert(s[i + 1].0 == res[j].0);
                }
            }
        }
    }
}

/// Insertion keeps the list strictly sorted by key.
pub proof fn lemma_assoc_insert_sorted<T>(
    s: Seq<(Seq<char>, T)>,
    key: Seq<char>,
    val: T,
    merge: spec_fn(T, T) -> T,
)
    requires
        sorted_by_first(s),
    ensures
        sorted_by_first(assoc_insert(s, key, val, merge)),
    decreases s.len(),
{
    let res = assoc_insert(s, key, val, merge);
    if s.len() == 0 {
    } else if s[0].0 == key {
        assert forall|i: int, j: int|
            0 <= i < j < res.len() implies str_lt(#[trigger] res[i].0, #[trigger] res[j].0) by {
            if i > 0 {
                assert(res[i] == s[i]);
            }
            assert(res[j] == s[j]);
            if i == 0 {
                assert(res[0].0 == s[0].0);
            }
        }
    } else if str_lt(key, s[0].0) {
        assert forall|i: int, j: int|
            0 <= i < j < res.len() implies str_lt(#[trigger] res[i].0, #[trigger] res[j].0) by {
            assert(res[j] == s[j - 1]);
            if i == 0 {
                if j > 1 {
                    lemma_str_lt_transitive(key, s[0].0, s[j - 1].0);
                }
            } else {
                assert(res[i] == s[i - 1]);
            }
        }
    } else {
        let rest = s.drop_first();
        assert(sorted_by_first(rest)) by {
            assert(forall|i: int| 0 <= i < rest.len() ==> rest[i] == s[i + 1]);
        }
        lemma_assoc_insert_sorted(rest, key, val, merge);
        lemma_assoc_insert_keys(rest, key, val, merge);
        lemma_str_lt_trichotomy(key, s[0].0);
        let sub = assoc_insert(rest, key, val, merge);
        assert forall|i: int, j: int|
            0 <= i < j < res.len() implies str_lt(#[trigger] res[i].0, #[trigger] res[j].0) by {
            if i == 0 {
                assert(res[j] == sub[j - 1]);
                if sub[j - 1].0 == key {
                    assert(str_lt(s[0].0, key));
                } else {
                    let x = choose|x: int| 0 <= x < rest.len() && rest[x].0 == sub[j - 1].0;
                    assert(s[x + 1].0 == sub[j - 1].0);
                    assert(str_lt(s[0].0, s[x + 1].0));
                }
            } else {
                assert(res[i] == sub[i - 1]);
                assert(res[j] == sub[j - 1]);
            }
        }
    }
}

} // verus!
