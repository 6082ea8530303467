//! Rounds are partitions: where the plan accounts for every item, every
//! item is in exactly one group of every round.

use crate::groups::is_group;
use crate::plan::plan_total;
use crate::relation::{has_item, items_below, lemma_has_item_push};
use crate::rounds::{disjoint, is_round, no_skips};
use vstd::prelude::*;
use vstd::set_lib::{lemma_int_range, lemma_set_disjoint_lens, lemma_subset_equality, set_int_range};

verus! {

/// Item `x` is in one of the groups of `r`.
pub open spec fn in_round(r: Seq<Seq<usize>>, x: int) -> bool {
    exists|p: int| 0 <= p < r.len() && has_item(#[trigger] r[p], x)
}

/// `r` splits the items below `n` into groups: no group names an item
/// twice, no item is in two groups, and every item is in some group.
pub open spec fn is_partition(r: Seq<Seq<usize>>, n: nat) -> bool {
    &&& forall|p: int| 0 <= p < r.len() ==> items_below(#[trigger] r[p], n as int)
    &&& forall|p: int| 0 <= p < r.len() ==> (#[trigger] r[p]).no_duplicates()
    &&& forall|p: int, q: int| 0 <= p < q < r.len() ==> disjoint(#[trigger] r[p], #[trigger] r[q])
    &&& forall|x: int| 0 <= x < n ==> #[trigger] in_round(r, x)
}

/// The items of a group, as a set.
spec fn item_set(g: Seq<usize>) -> Set<int> {
    Set::new(|x: int| has_item(g, x))
}

/// The items of the first `upto` groups of `r`, as a set.
spec fn placed_set(r: Seq<Seq<usize>>, upto: int) -> Set<int> {
    Set::new(|x: int| exists|p: int| 0 <= p < upto && has_item(#[trigger] r[p], x))
}

/// A group that names its items in ascending order has as many items as it
/// names.
proof fn lemma_item_set_counts(g: Seq<usize>)
    requires
        forall|i: int, j: int| 0 <= i < j < g.len() ==> (#[trigger] g[i]) < (#[trigger] g[j]),
    ensures
        item_set(g).finite(),
        item_set(g).len() == g.len(),
    decreases g.len(),
{
    if g.len() == 0 {
        assert(item_set(g) =~= Set::empty());
    } else {
        let front = g.drop_last();
        let last = g.last() as int;
        lemma_item_set_counts(front);
        assert(g == front.push(g.last()));
        assert forall|x: int| has_item(g, x) <==> has_item(front, x) || x == last by {
            lemma_has_item_push(front, g.last(), x);
        }
        assert(item_set(g) =~= item_set(front).insert(last));
        if has_item(front, last) {
            let i = choose|i: int| 0 <= i < front.len() && #[trigger] front[i] == last;
            assert(g[i] < g[g.len() - 1]);
        }
    }
}

/// The first `upto` groups of a round hold as many items as the plan gives
/// them.
proof fn lemma_placed_set_counts(rel: Seq<Seq<bool>>, plan: Seq<usize>, r: Seq<Seq<usize>>, upto: int)
    requires
        is_round(rel, plan, r),
        0 <= upto <= r.len(),
    ensures
        placed_set(r, upto).finite(),
        placed_set(r, upto).len() == plan_total(plan.take(upto)),
    decreases upto,
{
    if upto == 0 {
        assert(placed_set(r, upto) =~= Set::empty());
        assert(plan.take(0).len() == 0);
    } else {
        let g = r[upto - 1];
        lemma_placed_set_counts(rel, plan, r, upto - 1);
        assert(is_group(rel, no_skips(rel.len()), plan[upto - 1] as nat, g));
        lemma_item_set_counts(g);
        let before = placed_set(r, upto - 1);
        assert(placed_set(r, upto) =~= before + item_set(g));
        assert(before.disjoint(item_set(g))) by {
            assert forall|x: int| before.contains(x) implies !item_set(g).contains(x) by {
                let p = choose|p: int| 0 <= p < upto - 1 && has_item(#[trigger] r[p], x);
                if has_item(g, x) {
                    let i = choose|i: int| 0 <= i < r[p].len() && #[trigger] r[p][i] == x;
                    let j = choose|j: int| 0 <= j < g.len() && #[trigger] g[j] == x;
                    assert(disjoint(r[p], r[upto - 1]));
                    assert(r[p][i] != g[j]);
                }
            }
        }
        lemma_set_disjoint_lens(before, item_set(g));
        assert(plan.take(upto).drop_last() == plan.take(upto - 1));
        assert(plan.take(upto).last() == plan[upto - 1]);
    }
}

/// Under a plan that accounts for every item of the relation, every round
/// is a partition of the items.
pub proof fn lemma_round_is_partition(rel: Seq<Seq<bool>>, plan: Seq<usize>, r: Seq<Seq<usize>>)
    requires
        is_round(rel, plan, r),
        plan_total(plan) == rel.len(),
    ensures
        is_partition(r, rel.len()),
{
    let n = rel.len();
    let placed = placed_set(r, r.len() as int);
    lemma_placed_set_counts(rel, plan, r, r.len() as int);
    assert(plan.take(r.len() as int) == plan);
    lemma_int_range(0, n as int);
    assert(placed.subset_of(set_int_range(0, n as int))) by {
        assert forall|x: int| placed.contains(x) implies set_int_range(0, n as int).contains(x) by {
            let p = choose|p: int| 0 <= p < r.len() && has_item(#[trigger] r[p], x);
            assert(is_group(rel, no_skips(n), plan[p] as nat, r[p]));
        }
    }
    lemma_subset_equality(placed, set_int_range(0, n as int));
    assert forall|x: int| 0 <= x < n implies #[trigger] in_round(r, x) by {
        assert(set_int_range(0, n as int).contains(x));
        assert(placed.contains(x));
    }
    assert forall|p: int| 0 <= p < r.len() implies items_below(#[trigger] r[p], n as int) by {
        assert(is_group(rel, no_skips(n), plan[p] as nat, r[p]));
    }
    assert forall|p: int| 0 <= p < r.len() implies (#[trigger] r[p]).no_duplicates() by {
        let g = r[p];
        assert(is_group(rel, no_skips(n), plan[p] as nat, g));
        assert forall|i: int, j: int| 0 <= i < g.len() && 0 <= j < g.len() && i != j implies g[i] != g[j] by {
            if i < j {
                assert(g[i] < g[j]);
            } else {
                assert(g[j] < g[i]);
            }
        }
    }
}

} // verus!
