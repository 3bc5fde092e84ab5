//! The repeated running-sum search: cycling endlessly through a list of
//! frequency changes, which running sum is the first to come up twice.

use vstd::prelude::*;

use std::collections::HashSet;

verus! {

broadcast use vstd::std_specs::hash::group_hash_axioms;

/// The running sum after the first `k` values of the endlessly cycled list.
pub open spec fn cycled_sum(vs: Seq<i64>, k: int) -> int
    decreases k,
{
    if k <= 0 || vs.len() == 0 {
        0
    } else {
        cycled_sum(vs, k - 1) + vs[(k - 1) % vs.len() as int]
    }
}

/// The running sum at step `k` has already appeared at some earlier step.
/// Step zero, with sum zero, counts as seen from the start.
pub open spec fn repeats_at(vs: Seq<i64>, k: int) -> bool {
    exists|j: int| 0 <= j < k && cycled_sum(vs, j) == cycled_sum(vs, k)
}

/// The first repeated running sum at a step between `k` and `bound`, if any
/// step in that range repeats.
pub open spec fn first_repeat_from(vs: Seq<i64>, k: int, bound: int) -> Option<int>
    decreases bound + 1 - k,
{
    if k < 0 || k > bound {
        None
    } else if repeats_at(vs, k) {
        Some(cycled_sum(vs, k))
    } else {
        first_repeat_from(vs, k + 1, bound)
    }
}

proof fn lemma_first_repeat_found(vs: Seq<i64>, k0: int, bound: int, k: int)
    requires
        0 <= k0 <= k <= bound,
        repeats_at(vs, k),
        forall|t: int| k0 <= t < k ==> !repeats_at(vs, t),
    ensures
        first_repeat_from(vs, k0, bound) == Some(cycled_sum(vs, k)),
    decreases k - k0,
{
    if k0 < k {
        lemma_first_repeat_found(vs, k0 + 1, bound, k);
    }
}

proof fn lemma_first_repeat_none(vs: Seq<i64>, k0: int, bound: int)
    requires
        0 <= k0,
        forall|t: int| k0 <= t <= bound ==> !repeats_at(vs, t),
    ensures
        first_repeat_from(vs, k0, bound) is None,
    decreases bound + 1 - k0,
{
    if k0 <= bound {
        lemma_first_repeat_none(vs, k0 + 1, bound);
    }
}

/// Cycles through the values at most `max_cycles + 1` times and returns the
/// first running sum seen twice, counting the starting sum of zero as
/// already seen. `None` when the list is empty or no sum repeats in time.
pub fn find_first_cycled_sum_repeat(values: &[i64], max_cycles: usize) -> (r: Option<i64>)
    requires
        (max_cycles + 1) * values@.len() <= usize::MAX,
        forall|k: int|
            0 <= k <= (max_cycles + 1) * values@.len() ==> i64::MIN <= #[trigger] cycled_sum(
                values@,
                k,
            ) <= i64::MAX,
    ensures
        ({
            let bound = (max_cycles + 1) * values@.len();
            match first_repeat_from(values@, 1, bound as int) {
                Some(v) => r == Some(v as i64) && v == v as i64 as int,
                None => r is None,
            }
        }),
{
    let n = values.len();
    if n == 0 {
        proof {
            assert((max_cycles + 1) * values@.len() == 0) by (nonlinear_arith)
                requires
                    values@.len() == 0,
            ;
            assert(first_repeat_from(values@, 1, 0) is None);
        }
        return None;
    }
    proof {
        assert((max_cycles + 1) * values@.len() == (max_cycles as int + 1) * (n as int));
        assert(max_cycles as int + 1 <= (max_cycles as int + 1) * (n as int)) by (nonlinear_arith)
            requires
                n as int >= 1,
                max_cycles as int + 1 >= 1,
        ;
    }
    let max_iterations = (max_cycles + 1) * n;
    let ghost bound = max_iterations as int;
    let mut sum: i64 = 0;
    let mut seen: HashSet<i64> = HashSet::new();
    seen.insert(0);
    proof {
        assert(cycled_sum(values@, 0) == 0);
        assert(seen@ =~= Set::new(
            |v: i64| exists|j: int| 0 <= j <= 0 && cycled_sum(values@, j) == v,
        ));
    }
    let mut idx: usize = 0;
    while idx < max_iterations
        invariant
            n == values@.len(),
            n >= 1,
            max_iterations == (max_cycles + 1) * values@.len(),
            bound == max_iterations as int,
            idx <= max_iterations,
            forall|k: int|
                0 <= k <= bound ==> i64::MIN <= #[trigger] cycled_sum(values@, k) <= i64::MAX,
            sum == cycled_sum(values@, idx as int),
            seen@ == Set::new(
                |v: i64| exists|j: int| 0 <= j <= idx && cycled_sum(values@, j) == v,
            ),
            forall|k: int| 1 <= k <= idx ==> !repeats_at(values@, k),
        decreases max_iterations - idx,
    {
        let v = values[idx % n];
        proof {
            assert(cycled_sum(values@, idx as int + 1) == cycled_sum(values@, idx as int)
                + values@[(idx as int) % (n as int)]);
            assert(i64::MIN <= sum + v <= i64::MAX);
        }
        let new_sum = sum + v;
        let fresh = seen.insert(new_sum);
        if !fresh {
            proof {
                let j = choose|j: int|
                    0 <= j <= idx && cycled_sum(values@, j) == new_sum as int;
                assert(cycled_sum(values@, j) == cycled_sum(values@, idx as int + 1));
                assert(repeats_at(values@, idx as int + 1));
                lemma_first_repeat_found(values@, 1, bound, idx as int + 1);
            }
            return Some(new_sum);
        }
        proof {
            assert(!repeats_at(values@, idx as int + 1)) by {
                if repeats_at(values@, idx as int + 1) {
                    let j = choose|j: int|
                        0 <= j < idx as int + 1 && #[trigger] cycled_sum(values@, j) == cycled_sum(
                            values@,
                            idx as int + 1,
                        );
                    assert(Set::new(
                        |v: i64| exists|t: int| 0 <= t <= idx && cycled_sum(values@, t) == v,
                    ).contains(new_sum));
                }
            }
            assert(seen@ =~= Set::new(
                |v: i64| exists|j: int| 0 <= j <= idx + 1 && cycled_sum(values@, j) == v,
            )) by {
                assert forall|w: i64|
                    (exists|j: int| 0 <= j <= idx + 1 && cycled_sum(values@, j) == w)
                        implies seen@.contains(w) by {
                    let j = choose|j: int| 0 <= j <= idx + 1 && cycled_sum(values@, j) == w;
                    if j == idx + 1 {
                        assert(w == new_sum);
                    } else {
                        assert(exists|t: int| 0 <= t <= idx && cycled_sum(values@, t) == w);
                    }
                }
            }
        }
        sum = new_sum;
        idx += 1;
    }
    proof {
        lemma_first_repeat_none(values@, 1, bound);
    }
    None
}

} // verus!
