//! The size plan: how many groups a round has, and how large each one is.

use crate::errors::ConfigError;
use vstd::arithmetic::div_mod::lemma_fundamental_div_mod_converse;
use vstd::prelude::*;

verus! {

/// The size plan for `n` items and groups of at least `min` items.
///
/// There are `n / min` groups. The `n % min` items left over are handed out
/// one at a time, to the first group, then the second, and so on, starting
/// over at the first group for as long as items remain. So every group gets
/// `spare / count` of them, and the first `spare % count` groups one more.
pub open spec fn size_plan(n: nat, min: nat) -> Seq<usize>
    recommends
        1 <= min <= n,
{
    let count = n / min;
    let spare = n % min;
    Seq::new(
        count,
        |i: int| (min + spare / count + if i < spare % count { 1int } else { 0int }) as usize,
    )
}

/// The sum of the sizes in a plan.
pub open spec fn plan_total(plan: Seq<usize>) -> nat
    decreases plan.len(),
{
    if plan.len() == 0 {
        0
    } else {
        plan_total(plan.drop_last()) + plan.last() as nat
    }
}

/// A plan whose first `extra` sizes are `base + 1` and whose other sizes are
/// `base` adds up to `len * base + extra`.
proof fn lemma_stepped_total(plan: Seq<usize>, base: nat, extra: nat, upto: nat)
    requires
        upto <= plan.len(),
        extra <= plan.len(),
        forall|i: int| 0 <= i < plan.len() ==> plan[i] == base + if i < extra { 1int } else { 0int },
    ensures
        plan_total(plan.take(upto as int)) == upto * base + if upto < extra { upto } else { extra },
    decreases upto,
{
    let front = plan.take(upto as int);
    if upto > 0 {
        let before = (upto - 1) as nat;
        lemma_stepped_total(plan, base, extra, before);
        assert(front.drop_last() == plan.take(before as int));
        assert(front.last() == plan[upto - 1]);
        assert(upto * base == before * base + base) by (nonlinear_arith)
            requires
                upto == before + 1,
        ;
    } else {
        assert(front.len() == 0);
    }
}

/// A size plan uses every item exactly once, gives every group at least the
/// minimum, and keeps any two groups within one item of each other.
pub proof fn lemma_size_plan_balanced(n: nat, min: nat)
    requires
        1 <= min <= n,
        n <= usize::MAX,
    ensures
        size_plan(n, min).len() == n / min,
        plan_total(size_plan(n, min)) == n,
        forall|i: int| 0 <= i < size_plan(n, min).len() ==> min <= #[trigger] size_plan(n, min)[i] <= n,
        forall|i: int, j: int|
            0 <= i < size_plan(n, min).len() && 0 <= j < size_plan(n, min).len() ==> #[trigger] size_plan(
                n,
                min,
            )[i] - #[trigger] size_plan(n, min)[j] <= 1,
{
    let count = n / min;
    let spare = n % min;
    let share = spare / count;
    let extra = spare % count;
    let plan = size_plan(n, min);
    assert(count >= 1 && n == min * count + spare && spare == count * share + extra && 0 <= extra
        < count && share >= 0) by (nonlinear_arith)
        requires
            1 <= min <= n,
            count == n / min,
            spare == n % min,
            share == spare / count,
            extra == spare % count,
    ;
    assert(count * (min + share) == min * count + count * share) by (nonlinear_arith);
    assert(min + share + 1 <= n || extra == 0) by (nonlinear_arith)
        requires
            count >= 1,
            n == count * (min + share) + extra,
            min >= 1,
            share >= 0,
            extra >= 0,
    ;
    assert(min + share <= n) by (nonlinear_arith)
        requires
            count >= 1,
            n == count * (min + share) + extra,
            min >= 1,
            share >= 0,
            extra >= 0,
    ;
    assert forall|i: int| 0 <= i < plan.len() implies plan[i] == (min + share) + if i < extra {
        1int
    } else {
        0int
    } by {}
    lemma_stepped_total(plan, min + share, extra, count);
    assert(plan.take(count as int) == plan);
}

/// Plans one round: the sizes of its groups, in order.
///
/// Refuses a minimum of zero and a minimum larger than `n`, for which no
/// group can be formed.
pub fn group_sizes(n: usize, min_group_size: usize) -> (planned: Result<Vec<usize>, ConfigError>)
    ensures
        match planned {
            Ok(sizes) => {
                &&& 1 <= min_group_size <= n
                &&& sizes@ == size_plan(n as nat, min_group_size as nat)
                &&& plan_total(sizes@) == n
                &&& forall|i: int| 0 <= i < sizes.len() ==> min_group_size <= #[trigger] sizes[i]
                &&& forall|i: int, j: int|
                    0 <= i < sizes.len() && 0 <= j < sizes.len() ==> #[trigger] sizes[i]
                        - #[trigger] sizes[j] <= 1
            },
            Err(e) => e == ConfigError::InfeasibleMinimum && (min_group_size == 0 || min_group_size > n),
        },
{
    if min_group_size == 0 || min_group_size > n {
        return Err(ConfigError::InfeasibleMinimum);
    }
    let count: usize = n / min_group_size;
    let spare: usize = n % min_group_size;
    let mut sizes: Vec<usize> = vec![min_group_size; count];
    let mut remaining: usize = spare;
    let mut next: usize = 0;
    let ghost mut rounds: nat = 0;
    proof {
        assert(count >= 1 && n == min_group_size * count + spare) by (nonlinear_arith)
            requires
                1 <= min_group_size <= n,
                count == n / min_group_size,
                spare == n % min_group_size,
        ;
    }
    while remaining > 0
        invariant
            count >= 1,
            min_group_size >= 1,
            sizes.len() == count,
            next < count,
            n == min_group_size * count + spare,
            rounds * count + next + remaining == spare,
            forall|i: int|
                0 <= i < count ==> sizes[i] == min_group_size + rounds + if i < next {
                    1int
                } else {
                    0int
                },
        decreases remaining,
    {
        proof {
            assert(min_group_size + rounds + 1 <= n) by (nonlinear_arith)
                requires
                    count >= 1,
                    n == min_group_size * count + spare,
                    rounds * count + next + remaining == spare,
                    remaining >= 1,
                    min_group_size >= 1,
            ;
        }
        let grown: usize = sizes[next] + 1;
        sizes.set(next, grown);
        remaining = remaining - 1;
        next = next + 1;
        if next == count {
            next = 0;
            proof {
                assert((rounds + 1) * count == rounds * count + count) by (nonlinear_arith);
                rounds = rounds + 1;
            }
        }
    }
    proof {
        lemma_fundamental_div_mod_converse(spare as int, count as int, rounds as int, next as int);
        lemma_size_plan_balanced(n as nat, min_group_size as nat);
        assert(sizes@ =~= size_plan(n as nat, min_group_size as nat));
    }
    Ok(sizes)
}

} // verus!
