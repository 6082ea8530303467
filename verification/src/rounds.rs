//! The round enumerator: every way to split all items into groups of the
//! planned sizes.

use crate::bit_rows::BitRow;
use crate::groups::{group_order, groups_of, is_group, lemma_group_order_strict, potential_groups, Group};
use crate::listing::{
    is_strict, lemma_lex_strict, lemma_lists_joined, lemma_lists_nothing, lemma_lists_one,
    lemma_lists_same, lex_before, lists,
};
use crate::partition::{is_partition, lemma_round_is_partition};
use crate::plan::plan_total;
use crate::relation::{has_item, items_below, lemma_has_item_push, well_formed};
use vstd::prelude::*;

verus! {

/// The groups of one round, in the order of the size plan.
pub type Round = Vec<Group>;

/// No item is in both `g` and `h`.
pub open spec fn disjoint(g: Seq<usize>, h: Seq<usize>) -> bool {
    forall|i: int, j: int| 0 <= i < g.len() && 0 <= j < h.len() ==> #[trigger] g[i] != #[trigger] h[j]
}

/// The skip mask that skips none of `n` items.
pub open spec fn no_skips(n: nat) -> Seq<bool> {
    Seq::new(n, |x: int| false)
}

/// `r` is a round: it has one group for each size of the plan, in order,
/// no two of its members conflict inside a group, and no item is in two of
/// its groups.
pub open spec fn is_round(rel: Seq<Seq<bool>>, plan: Seq<usize>, r: Seq<Seq<usize>>) -> bool {
    &&& r.len() == plan.len()
    &&& forall|p: int|
        0 <= p < r.len() ==> is_group(rel, no_skips(rel.len()), plan[p] as nat, #[trigger] r[p])
    &&& forall|p: int, q: int| 0 <= p < q < r.len() ==> disjoint(#[trigger] r[p], #[trigger] r[q])
}

/// The family of all rounds.
pub open spec fn rounds_of(rel: Seq<Seq<bool>>, plan: Seq<usize>) -> spec_fn(Seq<Seq<usize>>) -> bool {
    |r: Seq<Seq<usize>>| is_round(rel, plan, r)
}

/// The order in which rounds are listed: dictionary order on their groups.
pub open spec fn round_order() -> spec_fn(Seq<Seq<usize>>, Seq<Seq<usize>>) -> bool {
    |a: Seq<Seq<usize>>, b: Seq<Seq<usize>>| lex_before(a, b, group_order())
}

/// The order of rounds is a strict order.
pub proof fn lemma_round_order_strict()
    ensures
        is_strict(round_order()),
{
    lemma_group_order_strict();
    lemma_lex_strict(group_order(), round_order());
}

/// Every size in the plan is at least one.
pub open spec fn sizes_positive(plan: Seq<usize>) -> bool {
    forall|p: int| 0 <= p < plan.len() ==> #[trigger] plan[p] >= 1
}

/// `skip` with the mark of every item of `g` replaced by `value`.
pub open spec fn with_skips(skip: Seq<bool>, g: Seq<usize>, value: bool) -> Seq<bool> {
    Seq::new(
        skip.len(),
        |x: int|
            if has_item(g, x) {
                value
            } else {
                skip[x]
            },
    )
}

/// `r` completes the groups in `placed` to a round. The groups still to be
/// added avoid the items that `skip` marks, and each other.
spec fn fills_from(
    rel: Seq<Seq<bool>>,
    skip: Seq<bool>,
    plan: Seq<usize>,
    placed: Seq<Seq<usize>>,
    r: Seq<Seq<usize>>,
) -> bool {
    &&& r.len() == plan.len()
    &&& placed.len() <= plan.len()
    &&& r.take(placed.len() as int) == placed
    &&& forall|p: int| placed.len() <= p < r.len() ==> is_group(rel, skip, plan[p] as nat, #[trigger] r[p])
    &&& forall|p: int, q: int|
        placed.len() <= p < q < r.len() ==> disjoint(#[trigger] r[p], #[trigger] r[q])
}

/// The completions of `placed`.
spec fn fillings(rel: Seq<Seq<bool>>, skip: Seq<bool>, plan: Seq<usize>, placed: Seq<Seq<usize>>) -> spec_fn(
    Seq<Seq<usize>>,
) -> bool {
    |r: Seq<Seq<usize>>| fills_from(rel, skip, plan, placed, r)
}

/// The completions of `placed` whose next group is one of the first `upto`
/// candidates.
spec fn fillings_through(
    rel: Seq<Seq<bool>>,
    skip: Seq<bool>,
    plan: Seq<usize>,
    placed: Seq<Seq<usize>>,
    candidates: Seq<Seq<usize>>,
    from: int,
    upto: int,
) -> spec_fn(Seq<Seq<usize>>) -> bool {
    |r: Seq<Seq<usize>>|
        placed.len() < plan.len() && fills_from(rel, skip, plan, placed, r) && exists|c: int|
            from <= c < upto && 0 <= c < candidates.len() && #[trigger] candidates[c] == r[placed.len() as int]
}

/// Sets the skip mark of every item of `g` to `value`.
fn set_skips(skip: &mut BitRow, g: &Vec<usize>, value: bool)
    requires
        items_below(g@, old(skip)@.len() as int),
    ensures
        final(skip)@ == with_skips(old(skip)@, g@, value),
{
    let ghost start = skip@;
    let mut i: usize = 0;
    assert(skip@ =~= with_skips(start, g@.take(0), value)) by {
        assert forall|x: int| !has_item(g@.take(0), x) by {}
    }
    while i < g.len()
        invariant
            i <= g.len(),
            items_below(g@, start.len() as int),
            skip@ == with_skips(start, g@.take(i as int), value),
        decreases g.len() - i,
    {
        let item: usize = g[i];
        let ghost before = g@.take(i as int);
        let ghost after = g@.take(i + 1);
        skip.set(item, value);
        proof {
            assert(after == before.push(item));
            assert forall|x: int| has_item(after, x) <==> has_item(before, x) || x == item by {
                lemma_has_item_push(before, item, x);
            }
            assert(skip@ =~= with_skips(start, after, value));
        }
        i = i + 1;
    }
    assert(g@.take(g.len() as int) == g@);
}

/// Under a mask that also skips the items of `g`, the groups are those that
/// are groups under the old mask and share no item with `g`.
proof fn lemma_group_under_skips(rel: Seq<Seq<bool>>, skip: Seq<bool>, g: Seq<usize>, k: nat, h: Seq<usize>)
    requires
        skip.len() == rel.len(),
    ensures
        is_group(rel, with_skips(skip, g, true), k, h) <==> is_group(rel, skip, k, h) && disjoint(g, h),
{
    let masked = with_skips(skip, g, true);
    if is_group(rel, masked, k, h) {
        assert forall|i: int| 0 <= i < h.len() implies !skip[(#[trigger] h[i]) as int] && !has_item(
            g,
            h[i] as int,
        ) by {
            assert(!masked[h[i] as int]);
        }
        assert forall|a: int, b: int| 0 <= a < g.len() && 0 <= b < h.len() implies #[trigger] g[a]
            != #[trigger] h[b] by {
            assert(!has_item(g, h[b] as int));
        }
    }
    if is_group(rel, skip, k, h) && disjoint(g, h) {
        assert forall|i: int| 0 <= i < h.len() implies !masked[(#[trigger] h[i]) as int] by {
            if has_item(g, h[i] as int) {
                let a = choose|a: int| 0 <= a < g.len() && #[trigger] g[a] == h[i] as int;
                assert(g[a] != h[i]);
            }
        }
    }
}

/// Clearing the marks of a group that was not skipped before it was marked
/// gives back the mask as it was.
proof fn lemma_skips_undone(skip: Seq<bool>, g: Seq<usize>)
    requires
        forall|i: int| 0 <= i < g.len() ==> (#[trigger] g[i]) < skip.len() && !skip[g[i] as int],
    ensures
        with_skips(with_skips(skip, g, true), g, false) == skip,
{
    let cleared = with_skips(with_skips(skip, g, true), g, false);
    assert forall|x: int| 0 <= x < skip.len() implies cleared[x] == skip[x] by {
        if has_item(g, x) {
            let i = choose|i: int| 0 <= i < g.len() && #[trigger] g[i] == x;
            assert(!skip[g[i] as int]);
        }
    }
    assert(cleared =~= skip);
}

/// The candidate that fills the last place of the plan leads to exactly one
/// round.
proof fn lemma_last_filling(
    rel: Seq<Seq<bool>>,
    skip: Seq<bool>,
    plan: Seq<usize>,
    placed: Seq<Seq<usize>>,
    candidates: Seq<Seq<usize>>,
    c: int,
)
    requires
        placed.len() + 1 == plan.len(),
        0 <= c < candidates.len(),
        is_group(rel, skip, plan[placed.len() as int] as nat, candidates[c]),
        forall|i: int, j: int| 0 <= i < j < candidates.len() ==> candidates[i] != candidates[j],
    ensures
        fillings_through(rel, skip, plan, placed, candidates, c, c + 1)(placed.push(candidates[c])),
        forall|r: Seq<Seq<usize>>| #[trigger]
            fillings_through(rel, skip, plan, placed, candidates, c, c + 1)(r) ==> r == placed.push(
                candidates[c],
            ),
{
    let at = placed.len() as int;
    let whole = placed.push(candidates[c]);
    assert(whole.take(at) == placed);
    assert(fills_from(rel, skip, plan, placed, whole));
    assert(candidates[c] == whole[at]);
    assert forall|r: Seq<Seq<usize>>| #[trigger]
        fillings_through(rel, skip, plan, placed, candidates, c, c + 1)(r) implies r == whole by {
        assert(r[at] == candidates[c]);
        assert forall|p: int| 0 <= p < at implies r[p] == whole[p] by {
            assert(r.take(at)[p] == r[p]);
        }
        assert(r =~= whole);
    }
}

/// With a candidate placed and its items skipped, the rounds still to be
/// found are the completions of the longer list of groups under the new
/// mask.
proof fn lemma_deeper_fillings(
    rel: Seq<Seq<bool>>,
    skip: Seq<bool>,
    plan: Seq<usize>,
    placed: Seq<Seq<usize>>,
    candidates: Seq<Seq<usize>>,
    c: int,
)
    requires
        skip.len() == rel.len(),
        placed.len() + 1 < plan.len(),
        0 <= c < candidates.len(),
        is_group(rel, skip, plan[placed.len() as int] as nat, candidates[c]),
    ensures
        forall|r: Seq<Seq<usize>>| #[trigger]
            fillings(rel, with_skips(skip, candidates[c], true), plan, placed.push(candidates[c]))(r)
                ==> fillings_through(rel, skip, plan, placed, candidates, c, c + 1)(r),
        forall|r: Seq<Seq<usize>>| #[trigger]
            fillings_through(rel, skip, plan, placed, candidates, c, c + 1)(r) ==> fillings(
                rel,
                with_skips(skip, candidates[c], true),
                plan,
                placed.push(candidates[c]),
            )(r),
{
    let at = placed.len() as int;
    let g = candidates[c];
    let longer = placed.push(g);
    let masked = with_skips(skip, g, true);
    assert forall|r: Seq<Seq<usize>>| #[trigger] fillings(rel, masked, plan, longer)(r) implies fillings_through(
        rel,
        skip,
        plan,
        placed,
        candidates,
        c,
        c + 1,
    )(r) by {
        assert(r.take(at + 1)[at] == r[at]);
        assert(r[at] == g);
        assert(r.take(at) =~= placed) by {
            assert forall|p: int| 0 <= p < at implies r.take(at)[p] == placed[p] by {
                assert(r.take(at + 1)[p] == longer[p]);
            }
        }
        assert forall|p: int| at <= p < r.len() implies is_group(rel, skip, plan[p] as nat, #[trigger] r[p]) by {
            if p > at {
                lemma_group_under_skips(rel, skip, g, plan[p] as nat, r[p]);
            }
        }
        assert forall|p: int, q: int| at <= p < q < r.len() implies disjoint(#[trigger] r[p], #[trigger] r[q]) by {
            if p == at {
                lemma_group_under_skips(rel, skip, g, plan[q] as nat, r[q]);
            }
        }
        assert(fills_from(rel, skip, plan, placed, r));
        assert(candidates[c] == r[at]);
    }
    assert forall|r: Seq<Seq<usize>>| #[trigger]
        fillings_through(rel, skip, plan, placed, candidates, c, c + 1)(r) implies fillings(
        rel,
        masked,
        plan,
        longer,
    )(r) by {
        assert(r[at] == g);
        assert(r.take(at + 1) =~= longer) by {
            assert forall|p: int| 0 <= p < at implies r.take(at + 1)[p] == longer[p] by {
                assert(r.take(at)[p] == r[p]);
            }
        }
        assert forall|p: int| at + 1 <= p < r.len() implies is_group(rel, masked, plan[p] as nat, #[trigger] r[p]) by {
            assert(disjoint(r[at], r[p]));
            lemma_group_under_skips(rel, skip, g, plan[p] as nat, r[p]);
        }
        assert(fills_from(rel, masked, plan, longer, r));
    }
}

/// Rounds that part ways at the next group are listed by that group.
proof fn lemma_fillings_in_order(
    rel: Seq<Seq<bool>>,
    skip: Seq<bool>,
    plan: Seq<usize>,
    placed: Seq<Seq<usize>>,
    candidates: Seq<Seq<usize>>,
    c: int,
)
    requires
        forall|i: int, j: int|
            0 <= i < j < candidates.len() ==> #[trigger] group_order()(candidates[i], candidates[j]),
    ensures
        forall|x: Seq<Seq<usize>>, y: Seq<Seq<usize>>| #[trigger]
            fillings_through(rel, skip, plan, placed, candidates, 0, c)(x) && #[trigger] fillings_through(
                rel,
                skip,
                plan,
                placed,
                candidates,
                c,
                c + 1,
            )(y) ==> round_order()(x, y),
{
    let at = placed.len() as int;
    assert forall|x: Seq<Seq<usize>>, y: Seq<Seq<usize>>| #[trigger]
        fillings_through(rel, skip, plan, placed, candidates, 0, c)(x) && #[trigger] fillings_through(
            rel,
            skip,
            plan,
            placed,
            candidates,
            c,
            c + 1,
        )(y) implies round_order()(x, y) by {
        let i = choose|i: int| 0 <= i < c && 0 <= i < candidates.len() && #[trigger] candidates[i] == x[at];
        assert(candidates[c] == y[at]);
        assert(group_order()(candidates[i], candidates[c]));
        assert(x.take(at) == y.take(at));
    }
}

/// Appends to `found` every round that completes `placed`, in dictionary
/// order.
fn extend_round(
    conflicts: &mut Vec<BitRow>,
    found: &mut Vec<Round>,
    placed: &mut Vec<Group>,
    group_sizes: &[usize],
    skip: &mut BitRow,
)
    requires
        well_formed(old(conflicts).deep_view()),
        old(skip)@.len() == old(conflicts).len(),
        old(placed).len() < group_sizes.len(),
        sizes_positive(group_sizes@),
    ensures
        final(conflicts).deep_view() == old(conflicts).deep_view(),
        final(conflicts).len() == old(conflicts).len(),
        final(skip)@ == old(skip)@,
        final(placed).deep_view() == old(placed).deep_view(),
        final(placed).len() == old(placed).len(),
        old(found).len() <= final(found).len(),
        final(found).deep_view().take(old(found).len() as int) == old(found).deep_view(),
        lists(
            final(found).deep_view().skip(old(found).len() as int),
            fillings(old(conflicts).deep_view(), old(skip)@, group_sizes@, old(placed).deep_view()),
            round_order(),
        ),
    decreases group_sizes.len() - old(placed).len(),
{
    let ghost rel = conflicts.deep_view();
    let ghost mask = skip@;
    let ghost plan = group_sizes@;
    let ghost stem = placed.deep_view();
    let ghost base = found.deep_view();
    let at: usize = placed.len();
    let k: usize = group_sizes[at];
    let candidates: Vec<Group> = potential_groups(conflicts, k, skip);
    let ghost options = candidates.deep_view();
    let mut c: usize = 0;
    proof {
        assert(found.deep_view().take(base.len() as int) =~= base);
        assert(found.deep_view().skip(base.len() as int) =~= Seq::empty());
        lemma_lists_nothing(fillings_through(rel, mask, plan, stem, options, 0, 0), round_order());
        assert forall|i: int| 0 <= i < options.len() implies is_group(rel, mask, k as nat, #[trigger] options[i]) by {
            assert(groups_of(rel, mask, k as nat)(options[i]));
        }
    }
    while c < candidates.len()
        invariant
            c <= candidates.len(),
            options == candidates.deep_view(),
            lists(options, groups_of(rel, mask, k as nat), group_order()),
            forall|i: int| 0 <= i < options.len() ==> is_group(rel, mask, k as nat, #[trigger] options[i]),
            conflicts.deep_view() == rel,
            conflicts.len() == old(conflicts).len(),
            well_formed(rel),
            skip@ == mask,
            mask.len() == conflicts.len(),
            plan == group_sizes@,
            sizes_positive(plan),
            placed.deep_view() == stem,
            placed.len() == at,
            at == old(placed).len(),
            at < group_sizes.len(),
            k == plan[at as int],
            base.len() <= found.len(),
            found.deep_view().take(base.len() as int) == base,
            lists(
                found.deep_view().skip(base.len() as int),
                fillings_through(rel, mask, plan, stem, options, 0, c as int),
                round_order(),
            ),
        decreases candidates.len() - c,
    {
        let ghost listed = found.deep_view().skip(base.len() as int);
        let ghost so_far = found.deep_view();
        let ghost step = fillings_through(rel, mask, plan, stem, options, c as int, c + 1);
        let ghost choice = options[c as int];
        let g: Group = candidates[c].clone();
        assert(g@ == choice) by {
            assert(candidates[c as int].deep_view() =~= candidates[c as int]@);
        }
        if at + 1 == group_sizes.len() {
            placed.push(g);
            let whole: Round = placed.clone();
            placed.pop();
            found.push(whole);
            proof {
                assert(whole.deep_view() =~= stem.push(choice));
                assert(placed.deep_view() =~= stem);
                assert forall|i: int, j: int| 0 <= i < j < options.len() implies options[i] != options[j] by {
                    lemma_group_order_strict();
                    assert(group_order()(options[i], options[j]));
                    assert(!group_order()(options[i], options[i]));
                }
                lemma_last_filling(rel, mask, plan, stem, options, c as int);
                lemma_lists_one(stem.push(choice), step, round_order());
                assert(found.deep_view() =~= so_far + seq![stem.push(choice)]);
                assert(found.deep_view().skip(so_far.len() as int) =~= seq![stem.push(choice)]);
            }
        } else {
            set_skips(skip, &g, true);
            placed.push(g);
            proof {
                assert(placed.deep_view() =~= stem.push(choice));
            }
            extend_round(conflicts, found, placed, group_sizes, skip);
            let ghost deepest = placed@;
            assert(placed.deep_view() == stem.push(choice));
            match placed.pop() {
                Some(last) => {
                    assert(last@ == choice) by {
                        assert(stem.push(choice)[at as int] == choice);
                        assert(deepest[at as int].deep_view() == choice);
                        assert(last.deep_view() =~= last@);
                    }
                    set_skips(skip, &last, false);
                },
                None => {},
            }
            proof {
                assert(placed.deep_view() =~= stem) by {
                    assert forall|p: int| 0 <= p < at implies placed.deep_view()[p] == stem[p] by {
                        assert(deepest[p].deep_view() == stem.push(choice)[p]);
                    }
                }
                lemma_skips_undone(mask, choice);
                lemma_deeper_fillings(rel, mask, plan, stem, options, c as int);
                let deeper = fillings(rel, with_skips(mask, choice, true), plan, stem.push(choice));
                lemma_lists_same(found.deep_view().skip(so_far.len() as int), deeper, step, round_order());
                assert(found.deep_view() =~= so_far + found.deep_view().skip(so_far.len() as int));
                assert(lists(found.deep_view().skip(so_far.len() as int), step, round_order()));
            }
        }
        proof {
            let added = found.deep_view().skip(so_far.len() as int);
            assert(found.deep_view() == so_far + added);
            assert(lists(added, step, round_order()));
            lemma_fillings_in_order(rel, mask, plan, stem, options, c as int);
            lemma_lists_joined(
                listed,
                added,
                fillings_through(rel, mask, plan, stem, options, 0, c as int),
                step,
                fillings_through(rel, mask, plan, stem, options, 0, c + 1),
                round_order(),
            );
            assert(found.deep_view().skip(base.len() as int) =~= listed + added);
            assert(found.deep_view().take(base.len() as int) =~= base);
        }
        c = c + 1;
    }
    proof {
        let through = fillings_through(rel, mask, plan, stem, options, 0, options.len() as int);
        let all = fillings(rel, mask, plan, stem);
        assert forall|r: Seq<Seq<usize>>| #[trigger] all(r) implies through(r) by {
            assert(groups_of(rel, mask, k as nat)(r[at as int]));
            assert(options.contains(r[at as int]));
            let i = choose|i: int| 0 <= i < options.len() && options[i] == r[at as int];
            assert(options[i] == r[at as int]);
        }
        lemma_lists_same(found.deep_view().skip(base.len() as int), through, all, round_order());
    }
}

/// Lists every round: every way to fill the places of the plan, in order,
/// with groups of the planned sizes that share no item. The rounds come in
/// dictionary order. For the empty plan that is the one round without
/// groups.
///
/// The relation is used for the search and is the same afterwards as it was
/// before.
pub fn single_assignment(conflicts: &mut Vec<BitRow>, group_sizes: &[usize]) -> (found: Vec<Round>)
    requires
        well_formed(old(conflicts).deep_view()),
        sizes_positive(group_sizes@),
    ensures
        final(conflicts).deep_view() == old(conflicts).deep_view(),
        final(conflicts).len() == old(conflicts).len(),
        lists(found.deep_view(), rounds_of(old(conflicts).deep_view(), group_sizes@), round_order()),
        plan_total(group_sizes@) == old(conflicts).len() ==> forall|i: int|
            0 <= i < found.len() ==> is_partition(#[trigger] found.deep_view()[i], old(conflicts).len() as nat),
{
    let ghost rel = conflicts.deep_view();
    let ghost plan = group_sizes@;
    let n: usize = conflicts.len();
    let mut found: Vec<Round> = Vec::new();
    let mut placed: Vec<Group> = Vec::new();
    if group_sizes.len() == 0 {
        assert(placed.deep_view() =~= Seq::<Seq<usize>>::empty());
        found.push(placed);
        proof {
            let nothing = Seq::<Seq<usize>>::empty();
            assert(found.deep_view().len() == 1);
            assert(found.deep_view()[0] == nothing);
            assert(found.deep_view() =~= seq![nothing]);
            assert(is_round(rel, plan, nothing));
            assert forall|r: Seq<Seq<usize>>| #[trigger] rounds_of(rel, plan)(r) implies r == nothing by {
                assert(r =~= nothing);
            }
            lemma_lists_one(nothing, rounds_of(rel, plan), round_order());
            if plan_total(plan) == n {
                lemma_round_is_partition(rel, plan, nothing);
            }
        }
        return found;
    }
    let width: usize = if n == 0 {
        0
    } else {
        assert(rel[0].len() == n);
        conflicts[0].len()
    };
    let mut skip: BitRow = BitRow::repeat(false, width);
    assert(skip@ =~= no_skips(n as nat));
    extend_round(conflicts, &mut found, &mut placed, group_sizes, &mut skip);
    proof {
        let nothing = Seq::<Seq<usize>>::empty();
        let all = fillings(rel, no_skips(n as nat), plan, nothing);
        assert(placed.deep_view() =~= nothing);
        assert(found.deep_view().skip(0) =~= found.deep_view());
        assert forall|r: Seq<Seq<usize>>| #[trigger] all(r) implies rounds_of(rel, plan)(r) by {}
        assert forall|r: Seq<Seq<usize>>| #[trigger] rounds_of(rel, plan)(r) implies all(r) by {
            assert(r.take(0) =~= nothing);
        }
        lemma_lists_same(found.deep_view(), all, rounds_of(rel, plan), round_order());
        if plan_total(plan) == n {
            assert forall|i: int| 0 <= i < found.len() implies is_partition(
                #[trigger] found.deep_view()[i],
                n as nat,
            ) by {
                assert(rounds_of(rel, plan)(found.deep_view()[i]));
                lemma_round_is_partition(rel, plan, found.deep_view()[i]);
            }
        }
    }
    found
}

} // verus!
