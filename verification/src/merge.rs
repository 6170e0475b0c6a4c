//! Tallying of key/value pair lists: collapsing repeated keys into a single
//! pair carrying the sum of their values, as when combining the prime
//! factorizations of several numbers into one exponent list.

use vstd::prelude::*;

verus! {

/// The sum of the values of the pairs in `s` whose key equals `k`.
pub open spec fn key_sum(s: Seq<(u64, u64)>, k: u64) -> int
    decreases s.len(),
{
    if s.len() == 0 {
        0
    } else {
        key_sum(s.drop_last(), k) + if s.last().0 == k {
            s.last().1 as int
        } else {
            0
        }
    }
}

/// The sum of the values of all pairs in `s`.
pub open spec fn total_sum(s: Seq<(u64, u64)>) -> int
    decreases s.len(),
{
    if s.len() == 0 {
        0
    } else {
        total_sum(s.drop_last()) + s.last().1
    }
}

/// Whether some pair in `s` has key `k`.
pub open spec fn has_key(s: Seq<(u64, u64)>, k: u64) -> bool {
    exists|i: int| 0 <= i < s.len() && s[i].0 == k
}

proof fn lemma_key_sum_nonneg(s: Seq<(u64, u64)>, k: u64)
    ensures
        0 <= key_sum(s, k),
    decreases s.len(),
{
    if s.len() > 0 {
        lemma_key_sum_nonneg(s.drop_last(), k);
    }
}

proof fn lemma_key_sum_le_total(s: Seq<(u64, u64)>, k: u64)
    ensures
        key_sum(s, k) <= total_sum(s),
    decreases s.len(),
{
    if s.len() > 0 {
        lemma_key_sum_le_total(s.drop_last(), k);
    }
}

proof fn lemma_key_sum_take_step(s: Seq<(u64, u64)>, i: int, k: u64)
    requires
        0 <= i < s.len(),
    ensures
        key_sum(s.take(i + 1), k) == key_sum(s.take(i), k) + if s[i].0 == k {
            s[i].1 as int
        } else {
            0
        },
{
    assert(s.take(i + 1).drop_last() =~= s.take(i));
    assert(s.take(i + 1).last() == s[i]);
}

proof fn lemma_total_sum_take_step(s: Seq<(u64, u64)>, i: int)
    requires
        0 <= i < s.len(),
    ensures
        total_sum(s.take(i + 1)) == total_sum(s.take(i)) + s[i].1,
{
    assert(s.take(i + 1).drop_last() =~= s.take(i));
    assert(s.take(i + 1).last() == s[i]);
}

proof fn lemma_total_sum_take_le(s: Seq<(u64, u64)>, i: int)
    requires
        0 <= i <= s.len(),
    ensures
        total_sum(s.take(i)) <= total_sum(s),
    decreases s.len() - i,
{
    if i == s.len() {
        assert(s.take(i) =~= s);
    } else {
        lemma_total_sum_take_step(s, i);
        lemma_total_sum_take_le(s, i + 1);
    }
}

proof fn lemma_key_sum_absent(s: Seq<(u64, u64)>, k: u64)
    requires
        !has_key(s, k),
    ensures
        key_sum(s, k) == 0,
    decreases s.len(),
{
    if s.len() > 0 {
        assert(forall|i: int| 0 <= i < s.len() - 1 ==> s.drop_last()[i] == s[i]);
        lemma_key_sum_absent(s.drop_last(), k);
    }
}

/// The index of the first pair in `pairs` whose key is `key`, if any.
fn find_key(pairs: &Vec<(u64, u64)>, key: u64) -> (r: Option<usize>)
    ensures
        match r {
            Some(j) => j < pairs@.len() && pairs@[j as int].0 == key,
            None => !has_key(pairs@, key),
        },
{
    let mut j: usize = 0;
    while j < pairs.len()
        invariant
            j <= pairs@.len(),
            forall|t: int| 0 <= t < j ==> pairs@[t].0 != key,
        decreases pairs@.len() - j,
    {
        if pairs[j].0 == key {
            return Some(j);
        }
        j += 1;
    }
    None
}

/// Collapses a list of key/value pairs into a list with one pair per
/// distinct key, carrying the sum of that key's values. The order of the
/// result is unspecified; its keys are exactly the keys occurring in the
/// input. The values are summed exactly, so the total of all values must
/// fit in a `u64`.
pub fn merge_tuples(vector: &Vec<(u64, u64)>) -> (r: Vec<(u64, u64)>)
    requires
        total_sum(vector@) <= u64::MAX,
    ensures
        forall|i: int, j: int| 0 <= i < j < r@.len() ==> r@[i].0 != r@[j].0,
        forall|i: int|
            0 <= i < r@.len() ==> has_key(vector@, #[trigger] r@[i].0) && r@[i].1 == key_sum(
                vector@,
                r@[i].0,
            ),
        forall|i: int| 0 <= i < vector@.len() ==> has_key(r@, #[trigger] vector@[i].0),
{
    let mut result: Vec<(u64, u64)> = Vec::new();
    let mut idx: usize = 0;
    while idx < vector.len()
        invariant
            idx <= vector@.len(),
            total_sum(vector@) <= u64::MAX,
            forall|i: int, j: int| 0 <= i < j < result@.len() ==> result@[i].0 != result@[j].0,
            forall|i: int|
                0 <= i < result@.len() ==> has_key(vector@.take(idx as int), #[trigger] result@[i].0)
                    && result@[i].1 == key_sum(vector@.take(idx as int), result@[i].0),
            forall|t: int| 0 <= t < idx ==> has_key(result@, #[trigger] vector@[t].0),
        decreases vector@.len() - idx,
    {
        let k = vector[idx].0;
        let v = vector[idx].1;
        proof {
            assert forall|key: u64| key != k implies key_sum(vector@.take(idx + 1), key) == key_sum(
                vector@.take(idx as int),
                key,
            ) by {
                lemma_key_sum_take_step(vector@, idx as int, key);
            }
            lemma_key_sum_take_step(vector@, idx as int, k);
            lemma_key_sum_le_total(vector@.take(idx + 1), k);
            lemma_total_sum_take_le(vector@, idx + 1);
            lemma_key_sum_nonneg(vector@.take(idx as int), k);
            assert(forall|i: int|
                0 <= i < idx ==> vector@.take(idx + 1)[i] == vector@.take(idx as int)[i]);
        }
        let ghost pre = result@;
        match find_key(&result, k) {
            Some(j) => {
                let cur = result[j].1;
                result[j] = (k, cur + v);
                proof {
                    assert forall|t: int| 0 <= t < idx + 1 implies has_key(
                        result@,
                        #[trigger] vector@[t].0,
                    ) by {
                        if t < idx {
                            let w = choose|w: int| 0 <= w < pre.len() && pre[w].0 == vector@[t].0;
                            assert(result@[w].0 == vector@[t].0);
                        } else {
                            assert(result@[j as int].0 == vector@[t].0);
                        }
                    }
                }
            },
            None => {
                proof {
                    if has_key(vector@.take(idx as int), k) {
                        let w = choose|w: int|
                            0 <= w < idx && vector@.take(idx as int)[w].0 == k;
                        assert(has_key(result@, vector@[w].0));
                    }
                    lemma_key_sum_absent(vector@.take(idx as int), k);
                }
                result.push((k, v));
                proof {
                    assert forall|t: int| 0 <= t < idx + 1 implies has_key(
                        result@,
                        #[trigger] vector@[t].0,
                    ) by {
                        if t < idx {
                            let w = choose|w: int| 0 <= w < pre.len() && pre[w].0 == vector@[t].0;
                            assert(result@[w].0 == vector@[t].0);
                        } else {
                            assert(result@[result@.len() - 1].0 == vector@[t].0);
                        }
                    }
                }
            },
        }
        idx += 1;
        proof {
            assert(vector@.take(idx as int)[idx - 1] == vector@[idx - 1]);
        }
    }
    proof {
        assert(vector@.take(vector@.len() as int) =~= vector@);
    }
    result
}

} // verus!
