//! The sequence enumerator: the longest schedules of rounds in which no two
//! items share a group twice.

use crate::bit_rows::BitRow;
use crate::errors::ConfigError;
use crate::groups::{is_group, Group};
use crate::listing::{
    is_strict, lemma_lex_strict, lemma_lists_joined, lemma_lists_nothing, lemma_lists_one,
    lemma_lists_same, lex_before, lists,
};
use crate::partition::{is_partition, lemma_round_is_partition};
use crate::plan::{group_sizes, lemma_size_plan_balanced, size_plan};
use crate::relation::{
    add_conflicts_between, check_square, check_symmetric, clear_entries, has_item, is_square,
    items_below, lemma_relation_fills, relation_grown, remove_conflicts_between, row_grown,
    well_formed, with_pairs,
};
use crate::rounds::{
    disjoint, is_round, lemma_round_order_strict, no_skips, round_order, rounds_of,
    single_assignment, Round,
};
use vstd::prelude::*;

verus! {

/// The rounds of one schedule, first round first.
pub type Assignment = Vec<Round>;

/// Items `a` and `b` are in the same group of round `r`.
pub open spec fn together(r: Seq<Seq<usize>>, a: int, b: int) -> bool {
    exists|p: int| 0 <= p < r.len() && has_item(#[trigger] r[p], a) && has_item(r[p], b)
}

/// No two different items that share a group in `r` share a group in `s`.
pub open spec fn no_repeat(r: Seq<Seq<usize>>, s: Seq<Seq<usize>>) -> bool {
    forall|a: int, b: int| a != b && #[trigger] together(r, a, b) ==> !together(s, a, b)
}

/// `s` is a schedule: each of its entries is a round, and no two different
/// items share a group in two of its rounds.
pub open spec fn is_schedule(rel: Seq<Seq<bool>>, plan: Seq<usize>, s: Seq<Seq<Seq<usize>>>) -> bool {
    &&& forall|t: int| 0 <= t < s.len() ==> is_round(rel, plan, #[trigger] s[t])
    &&& forall|t: int, u: int| 0 <= t < u < s.len() ==> no_repeat(#[trigger] s[t], #[trigger] s[u])
}

/// `s` is a schedule, and no schedule has more rounds.
pub open spec fn is_longest_schedule(rel: Seq<Seq<bool>>, plan: Seq<usize>, s: Seq<Seq<Seq<usize>>>) -> bool {
    &&& is_schedule(rel, plan, s)
    &&& forall|other: Seq<Seq<Seq<usize>>>| #[trigger] is_schedule(rel, plan, other) ==> other.len() <= s.len()
}

/// The family of the longest schedules.
pub open spec fn longest_schedules(rel: Seq<Seq<bool>>, plan: Seq<usize>) -> spec_fn(
    Seq<Seq<Seq<usize>>>,
) -> bool {
    |s: Seq<Seq<Seq<usize>>>| is_longest_schedule(rel, plan, s)
}

/// The order in which schedules are listed: dictionary order on their
/// rounds.
pub open spec fn schedule_order() -> spec_fn(Seq<Seq<Seq<usize>>>, Seq<Seq<Seq<usize>>>) -> bool {
    |a: Seq<Seq<Seq<usize>>>, b: Seq<Seq<Seq<usize>>>| lex_before(a, b, round_order())
}

/// The order of schedules is a strict order.
pub proof fn lemma_schedule_order_strict()
    ensures
        is_strict(schedule_order()),
{
    lemma_round_order_strict();
    lemma_lex_strict(round_order(), schedule_order());
}

/// All longest schedules have the same number of rounds.
pub proof fn lemma_longest_schedules_agree(
    rel: Seq<Seq<bool>>,
    plan: Seq<usize>,
    s: Seq<Seq<Seq<usize>>>,
    other: Seq<Seq<Seq<usize>>>,
)
    requires
        is_longest_schedule(rel, plan, s),
        is_longest_schedule(rel, plan, other),
    ensures
        s.len() == other.len(),
{
}

/// Under the size plan for groups of at least `min` items, every round of a
/// schedule splits all items of the relation into groups.
pub proof fn lemma_schedule_rounds_partition(rel: Seq<Seq<bool>>, min: nat, s: Seq<Seq<Seq<usize>>>)
    requires
        1 <= min <= rel.len() <= usize::MAX,
        is_schedule(rel, size_plan(rel.len(), min), s),
    ensures
        forall|t: int| 0 <= t < s.len() ==> is_partition(#[trigger] s[t], rel.len()),
{
    lemma_size_plan_balanced(rel.len(), min);
    assert forall|t: int| 0 <= t < s.len() implies is_partition(#[trigger] s[t], rel.len()) by {
        lemma_round_is_partition(rel, size_plan(rel.len(), min), s[t]);
    }
}

/// The round in which each of `n` items is a group of its own.
pub open spec fn singletons(n: nat) -> Seq<Seq<usize>> {
    Seq::new(n, |p: int| seq![p as usize])
}

/// With a minimum group size of one there is no longest schedule: the round
/// of singletons pairs nobody, so it can follow itself any number of times.
pub proof fn lemma_singletons_never_end(rel: Seq<Seq<bool>>, s: Seq<Seq<Seq<usize>>>)
    requires
        1 <= rel.len() <= usize::MAX,
    ensures
        !is_longest_schedule(rel, size_plan(rel.len(), 1), s),
{
    let n = rel.len();
    let plan = size_plan(n, 1);
    let round = singletons(n);
    let longer = Seq::new(s.len() + 1, |t: int| round);
    assert(n / 1 == n && n % 1 == 0 && 0nat / n == 0 && 0nat % n == 0) by (nonlinear_arith)
        requires
            n >= 1,
    ;
    assert(is_round(rel, plan, round)) by {
        assert forall|p: int| 0 <= p < round.len() implies is_group(
            rel,
            no_skips(rel.len()),
            plan[p] as nat,
            #[trigger] round[p],
        ) by {
            assert(plan[p] == 1);
            assert(round[p].len() == 1 && round[p][0] == p);
        }
        assert forall|p: int, q: int| 0 <= p < q < round.len() implies disjoint(
            #[trigger] round[p],
            #[trigger] round[q],
        ) by {
            assert(round[p].len() == 1 && round[p][0] == p);
            assert(round[q].len() == 1 && round[q][0] == q);
        }
    }
    assert(no_repeat(round, round)) by {
        assert forall|a: int, b: int| a != b && #[trigger] together(round, a, b) implies !together(
            round,
            a,
            b,
        ) by {
            let p = choose|p: int| 0 <= p < round.len() && has_item(#[trigger] round[p], a) && has_item(round[p], b);
            let g = round[p];
            let i = choose|i: int| 0 <= i < g.len() && #[trigger] g[i] == a;
            let j = choose|j: int| 0 <= j < g.len() && #[trigger] g[j] == b;
            assert(g.len() == 1);
        }
    }
    assert(is_schedule(rel, plan, longer));
}

/// `rel` with every entry between two different items that share a group in
/// `r` replaced by `value`.
pub open spec fn with_round(rel: Seq<Seq<bool>>, r: Seq<Seq<usize>>, value: bool) -> Seq<Seq<bool>> {
    Seq::new(
        rel.len(),
        |a: int|
            Seq::new(
                rel[a].len(),
                |b: int|
                    if a != b && together(r, a, b) {
                        value
                    } else {
                        rel[a][b]
                    },
            ),
    )
}

/// Every item of every group of `r` is below `n`.
spec fn round_below(r: Seq<Seq<usize>>, n: int) -> bool {
    forall|p: int| 0 <= p < r.len() ==> items_below(#[trigger] r[p], n)
}

/// The pairs of a list of groups one longer are those of the list and
/// those of the group after it.
proof fn lemma_together_take(r: Seq<Seq<usize>>, upto: int)
    requires
        0 <= upto < r.len(),
    ensures
        forall|a: int, b: int|
            together(r.take(upto + 1), a, b) <==> together(r.take(upto), a, b) || (has_item(r[upto], a)
                && has_item(r[upto], b)),
{
    let shorter = r.take(upto);
    let longer = r.take(upto + 1);
    assert forall|a: int, b: int|
        together(longer, a, b) <==> together(shorter, a, b) || (has_item(r[upto], a) && has_item(
            r[upto],
            b,
        )) by {
        if together(shorter, a, b) {
            let p = choose|p: int| 0 <= p < shorter.len() && has_item(#[trigger] shorter[p], a) && has_item(shorter[p], b);
            assert(longer[p] == shorter[p]);
        }
        if has_item(r[upto], a) && has_item(r[upto], b) {
            assert(longer[upto] == r[upto]);
        }
        if together(longer, a, b) {
            let p = choose|p: int| 0 <= p < longer.len() && has_item(#[trigger] longer[p], a) && has_item(longer[p], b);
            if p < upto {
                assert(shorter[p] == longer[p]);
            }
        }
    }
}

/// Sets every entry between two different items that share a group in
/// `round` to `value`.
fn set_round(conflicts: &mut Vec<BitRow>, round: &Vec<Group>, value: bool)
    requires
        is_square(old(conflicts).deep_view()),
        round_below(round.deep_view(), old(conflicts).len() as int),
    ensures
        final(conflicts).deep_view() == with_round(old(conflicts).deep_view(), round.deep_view(), value),
        final(conflicts).len() == old(conflicts).len(),
{
    let ghost start = conflicts.deep_view();
    let ghost r = round.deep_view();
    let mut p: usize = 0;
    proof {
        assert forall|a: int, b: int| !together(r.take(0), a, b) by {}
        assert(conflicts.deep_view() =~~= with_round(start, r.take(0), value));
    }
    while p < round.len()
        invariant
            p <= round.len(),
            r == round.deep_view(),
            is_square(start),
            conflicts.len() == start.len(),
            round_below(r, start.len() as int),
            conflicts.deep_view() == with_round(start, r.take(p as int), value),
        decreases round.len() - p,
    {
        let ghost before = conflicts.deep_view();
        assert(round[p as int]@ == r[p as int]) by {
            assert(round[p as int].deep_view() =~= round[p as int]@);
        }
        assert(items_below(r[p as int], start.len() as int));
        assert(is_square(before)) by {
            assert forall|a: int| 0 <= a < before.len() implies (#[trigger] before[a]).len() == before.len() by {
                assert(start[a].len() == start.len());
            }
        }
        if value {
            add_conflicts_between(conflicts, &round[p]);
        } else {
            remove_conflicts_between(conflicts, &round[p]);
        }
        proof {
            lemma_together_take(r, p as int);
            let after = conflicts.deep_view();
            let wanted = with_round(start, r.take(p + 1), value);
            assert(after == with_pairs(before, r[p as int], value));
            assert forall|a: int, b: int| 0 <= a < start.len() && 0 <= b < start.len() implies after[a][b]
                == wanted[a][b] by {
                assert(start[a].len() == start.len());
                assert(before[a][b] == with_round(start, r.take(p as int), value)[a][b]);
            }
            assert forall|a: int| 0 <= a < start.len() implies after[a].len() == wanted[a].len() by {
                assert(start[a].len() == start.len());
                assert(before[a].len() == start.len());
            }
            assert(after =~~= wanted);
        }
        p = p + 1;
    }
    assert(r.take(round.len() as int) == r);
}

/// Two different items that share a group of a round do not conflict, in
/// either direction, and are both below the size of the relation.
proof fn lemma_together_clear(rel: Seq<Seq<bool>>, plan: Seq<usize>, r: Seq<Seq<usize>>, a: int, b: int)
    requires
        well_formed(rel),
        is_round(rel, plan, r),
        together(r, a, b),
        a != b,
    ensures
        0 <= a < rel.len(),
        0 <= b < rel.len(),
        !rel[a][b],
        !rel[b][a],
{
    let p = choose|p: int| 0 <= p < r.len() && has_item(#[trigger] r[p], a) && has_item(r[p], b);
    let g = r[p];
    assert(is_group(rel, no_skips(rel.len()), plan[p] as nat, g));
    let i = choose|i: int| 0 <= i < g.len() && #[trigger] g[i] == a;
    let j = choose|j: int| 0 <= j < g.len() && #[trigger] g[j] == b;
    assert(g[i] < rel.len() && g[j] < rel.len());
    if i < j {
        assert(!rel[g[i] as int][g[j] as int]);
    } else {
        assert(!rel[g[j] as int][g[i] as int]);
    }
    assert(rel[a][b] == rel[b][a]);
}

/// Sharing a group does not depend on the order in which the two items are
/// named.
proof fn lemma_together_swapped(r: Seq<Seq<usize>>, a: int, b: int)
    ensures
        together(r, a, b) == together(r, b, a),
{
    if together(r, a, b) {
        let p = choose|p: int| 0 <= p < r.len() && has_item(#[trigger] r[p], a) && has_item(r[p], b);
        assert(has_item(r[p], b) && has_item(r[p], a));
    }
    if together(r, b, a) {
        let p = choose|p: int| 0 <= p < r.len() && has_item(#[trigger] r[p], b) && has_item(r[p], a);
        assert(has_item(r[p], a) && has_item(r[p], b));
    }
}

/// Committing a round keeps the relation well-formed, takes away room for
/// new conflicts if the round pairs anyone, and is undone by retracting
/// the round.
proof fn lemma_round_committed(rel: Seq<Seq<bool>>, plan: Seq<usize>, r: Seq<Seq<usize>>)
    requires
        well_formed(rel),
        is_round(rel, plan, r),
    ensures
        well_formed(with_round(rel, r, true)),
        with_round(with_round(rel, r, true), r, false) == rel,
        plan.len() >= 1 && plan[0] >= 2 ==> clear_entries(with_round(rel, r, true))
            < clear_entries(rel),
{
    let marked = with_round(rel, r, true);
    let cleared = with_round(marked, r, false);
    assert forall|a: int, b: int| 0 <= a < rel.len() && 0 <= b < rel.len() implies #[trigger] marked[a][b]
        == #[trigger] marked[b][a] by {
        lemma_together_swapped(r, a, b);
        assert(rel[a][b] == rel[b][a]);
    }
    assert forall|a: int, b: int| 0 <= a < rel.len() && 0 <= b < rel.len() implies cleared[a][b]
        == rel[a][b] by {
        if a != b && together(r, a, b) {
            lemma_together_clear(rel, plan, r, a, b);
        }
    }
    assert(cleared =~~= rel);
    assert(relation_grown(rel, marked)) by {
        assert forall|a: int| 0 <= a < rel.len() implies row_grown(#[trigger] rel[a], marked[a]) by {}
    }
    if plan.len() >= 1 && plan[0] >= 2 {
        let g = r[0];
        assert(is_group(rel, no_skips(rel.len()), plan[0] as nat, g));
        let a = g[0] as int;
        let b = g[1] as int;
        assert(g[0] < g[1]);
        assert(has_item(g, a) && has_item(g, b));
        assert(together(r, a, b));
        lemma_together_clear(rel, plan, r, a, b);
        lemma_relation_fills(rel, marked, a, b);
    } else {
        lemma_relation_fills(rel, marked, 0, 0);
    }
}

/// After a round is committed, the rounds are those that were rounds
/// before and repeat none of its pairs.
proof fn lemma_round_after_commit(
    rel: Seq<Seq<bool>>,
    plan: Seq<usize>,
    committed: Seq<Seq<usize>>,
    r: Seq<Seq<usize>>,
)
    requires
        well_formed(rel),
    ensures
        is_round(with_round(rel, committed, true), plan, r) <==> is_round(rel, plan, r) && no_repeat(
            committed,
            r,
        ),
{
    let marked = with_round(rel, committed, true);
    let free = no_skips(rel.len());
    assert(marked.len() == rel.len());
    if is_round(marked, plan, r) {
        assert forall|p: int| 0 <= p < r.len() implies is_group(rel, free, plan[p] as nat, #[trigger] r[p]) by {
            let g = r[p];
            assert(is_group(marked, free, plan[p] as nat, g));
            assert forall|i: int, j: int| 0 <= i < j < g.len() implies (#[trigger] g[i]) < (#[trigger] g[j])
                && !rel[g[i] as int][g[j] as int] by {
                assert(!marked[g[i] as int][g[j] as int]);
                assert(rel[g[i] as int].len() == rel.len());
            }
        }
        assert forall|a: int, b: int| a != b && #[trigger] together(committed, a, b) implies !together(
            r,
            a,
            b,
        ) by {
            if together(r, a, b) {
                let p = choose|p: int| 0 <= p < r.len() && has_item(#[trigger] r[p], a) && has_item(r[p], b);
                let g = r[p];
                assert(is_group(marked, free, plan[p] as nat, g));
                let i = choose|i: int| 0 <= i < g.len() && #[trigger] g[i] == a;
                let j = choose|j: int| 0 <= j < g.len() && #[trigger] g[j] == b;
                assert(g[i] < rel.len() && g[j] < rel.len());
                assert(rel[a].len() == rel.len() && rel[b].len() == rel.len());
                lemma_together_swapped(committed, a, b);
                if i < j {
                    assert(!marked[g[i] as int][g[j] as int]);
                } else {
                    assert(!marked[g[j] as int][g[i] as int]);
                }
            }
        }
    }
    if is_round(rel, plan, r) && no_repeat(committed, r) {
        assert forall|p: int| 0 <= p < r.len() implies is_group(marked, free, plan[p] as nat, #[trigger] r[p]) by {
            let g = r[p];
            assert(is_group(rel, free, plan[p] as nat, g));
            assert forall|i: int, j: int| 0 <= i < j < g.len() implies (#[trigger] g[i]) < (#[trigger] g[j])
                && !marked[g[i] as int][g[j] as int] by {
                assert(!rel[g[i] as int][g[j] as int]);
                assert(rel[g[i] as int].len() == rel.len());
                assert(has_item(g, g[i] as int) && has_item(g, g[j] as int));
                assert(together(r, g[i] as int, g[j] as int));
            }
        }
    }
}

/// `s` continues the rounds in `done` to a schedule. The rounds in `done`
/// are taken as settled: the relation already holds their pairs, so only
/// the rounds added to them are held against it and against each other.
spec fn runs_from(
    rel: Seq<Seq<bool>>,
    plan: Seq<usize>,
    done: Seq<Seq<Seq<usize>>>,
    s: Seq<Seq<Seq<usize>>>,
) -> bool {
    &&& done.len() <= s.len()
    &&& s.take(done.len() as int) == done
    &&& forall|t: int| done.len() <= t < s.len() ==> is_round(rel, plan, #[trigger] s[t])
    &&& forall|t: int, u: int| done.len() <= t < u < s.len() ==> no_repeat(#[trigger] s[t], #[trigger] s[u])
}

/// The continuations of `done`, `done` itself among them.
spec fn runs(rel: Seq<Seq<bool>>, plan: Seq<usize>, done: Seq<Seq<Seq<usize>>>) -> spec_fn(
    Seq<Seq<Seq<usize>>>,
) -> bool {
    |s: Seq<Seq<Seq<usize>>>| runs_from(rel, plan, done, s)
}

/// The continuations of `done` by at least one round, the first of which
/// is one of the options numbered `from..upto`.
spec fn runs_through(
    rel: Seq<Seq<bool>>,
    plan: Seq<usize>,
    done: Seq<Seq<Seq<usize>>>,
    options: Seq<Seq<Seq<usize>>>,
    from: int,
    upto: int,
) -> spec_fn(Seq<Seq<Seq<usize>>>) -> bool {
    |s: Seq<Seq<Seq<usize>>>|
        runs_from(rel, plan, done, s) && done.len() < s.len() && exists|c: int|
            from <= c < upto && 0 <= c < options.len() && #[trigger] options[c] == s[done.len() as int]
}

/// The members of `family` that have `len` rounds.
spec fn of_length(family: spec_fn(Seq<Seq<Seq<usize>>>) -> bool, len: int) -> spec_fn(
    Seq<Seq<Seq<usize>>>,
) -> bool {
    |s: Seq<Seq<Seq<usize>>>| family(s) && s.len() == len
}

/// What the search has to show for a family of schedules it has gone
/// through, starting with the list `before` of schedules of `best_before`
/// rounds. No member of the family has more than `best_after` rounds. If
/// the family raised the best length, `after` lists its members of that
/// length. Otherwise `after` is `before` followed by the members of the
/// old best length.
spec fn merged(
    before: Seq<Seq<Seq<Seq<usize>>>>,
    best_before: int,
    after: Seq<Seq<Seq<Seq<usize>>>>,
    best_after: int,
    family: spec_fn(Seq<Seq<Seq<usize>>>) -> bool,
) -> bool {
    &&& best_before <= best_after
    &&& forall|s: Seq<Seq<Seq<usize>>>| #[trigger] family(s) ==> s.len() <= best_after
    &&& best_before < best_after ==> after.len() >= 1 && lists(
        after,
        of_length(family, best_after),
        schedule_order(),
    )
    &&& best_before == best_after ==> before.len() <= after.len() && after.take(before.len() as int)
        == before && lists(after.skip(before.len() as int), of_length(family, best_after), schedule_order())
}

/// Going through a family without members changes nothing.
proof fn lemma_merged_nothing(
    before: Seq<Seq<Seq<Seq<usize>>>>,
    best: int,
    family: spec_fn(Seq<Seq<Seq<usize>>>) -> bool,
)
    requires
        forall|s: Seq<Seq<Seq<usize>>>| !#[trigger] family(s),
    ensures
        merged(before, best, before, best, family),
{
    assert(before.take(before.len() as int) =~= before);
    assert(before.skip(before.len() as int) =~= Seq::empty());
    lemma_lists_nothing(of_length(family, best), schedule_order());
}

/// Going through a family is going through any family with the same
/// members.
proof fn lemma_merged_same(
    before: Seq<Seq<Seq<Seq<usize>>>>,
    best_before: int,
    after: Seq<Seq<Seq<Seq<usize>>>>,
    best_after: int,
    family: spec_fn(Seq<Seq<Seq<usize>>>) -> bool,
    other: spec_fn(Seq<Seq<Seq<usize>>>) -> bool,
)
    requires
        merged(before, best_before, after, best_after, family),
        forall|s: Seq<Seq<Seq<usize>>>| #[trigger] family(s) ==> other(s),
        forall|s: Seq<Seq<Seq<usize>>>| #[trigger] other(s) ==> family(s),
    ensures
        merged(before, best_before, after, best_after, other),
{
    assert forall|s: Seq<Seq<Seq<usize>>>| #[trigger] other(s) implies s.len() <= best_after by {
        assert(family(s));
    }
    assert forall|s: Seq<Seq<Seq<usize>>>| #[trigger] of_length(family, best_after)(s) implies of_length(
        other,
        best_after,
    )(s) by {
        assert(family(s));
    }
    assert forall|s: Seq<Seq<Seq<usize>>>| #[trigger] of_length(other, best_after)(s) implies of_length(
        family,
        best_after,
    )(s) by {
        assert(other(s));
    }
    if best_before < best_after {
        lemma_lists_same(after, of_length(family, best_after), of_length(other, best_after), schedule_order());
    } else {
        lemma_lists_same(
            after.skip(before.len() as int),
            of_length(family, best_after),
            of_length(other, best_after),
            schedule_order(),
        );
    }
}

/// Going through one family and then through a second one, whose members
/// of the final best length all come later in the order, is going through
/// both.
proof fn lemma_merged_joined(
    before: Seq<Seq<Seq<Seq<usize>>>>,
    best_before: int,
    between: Seq<Seq<Seq<Seq<usize>>>>,
    best_between: int,
    after: Seq<Seq<Seq<Seq<usize>>>>,
    best_after: int,
    first: spec_fn(Seq<Seq<Seq<usize>>>) -> bool,
    second: spec_fn(Seq<Seq<Seq<usize>>>) -> bool,
    family: spec_fn(Seq<Seq<Seq<usize>>>) -> bool,
)
    requires
        merged(before, best_before, between, best_between, first),
        merged(between, best_between, after, best_after, second),
        forall|x: Seq<Seq<Seq<usize>>>, y: Seq<Seq<Seq<usize>>>| #[trigger]
            of_length(first, best_after)(x) && #[trigger] of_length(second, best_after)(y)
                ==> schedule_order()(x, y),
        forall|s: Seq<Seq<Seq<usize>>>| #[trigger] family(s) ==> first(s) || second(s),
        forall|s: Seq<Seq<Seq<usize>>>| #[trigger] first(s) ==> family(s),
        forall|s: Seq<Seq<Seq<usize>>>| #[trigger] second(s) ==> family(s),
    ensures
        merged(before, best_before, after, best_after, family),
{
    let order = schedule_order();
    let wanted = of_length(family, best_after);
    let from_first = of_length(first, best_after);
    let from_second = of_length(second, best_after);
    assert forall|s: Seq<Seq<Seq<usize>>>| #[trigger] family(s) implies s.len() <= best_after by {
        if first(s) {
        } else {
            assert(second(s));
        }
    }
    assert forall|s: Seq<Seq<Seq<usize>>>| #[trigger] wanted(s) implies from_first(s) || from_second(s) by {
        assert(family(s));
    }
    assert forall|s: Seq<Seq<Seq<usize>>>| #[trigger] from_first(s) implies wanted(s) by {
        assert(first(s));
    }
    assert forall|s: Seq<Seq<Seq<usize>>>| #[trigger] from_second(s) implies wanted(s) by {
        assert(second(s));
    }
    if best_between < best_after {
        assert forall|s: Seq<Seq<Seq<usize>>>| !#[trigger] from_first(s) by {
            if from_first(s) {
                assert(first(s));
            }
        }
        lemma_lists_same(after, from_second, wanted, order);
    } else if best_before < best_between {
        let added = after.skip(between.len() as int);
        assert(after =~= between + added);
        lemma_lists_joined(between, added, from_first, from_second, wanted, order);
    } else {
        let early = between.skip(before.len() as int);
        let late = after.skip(between.len() as int);
        assert(after.take(before.len() as int) =~= before) by {
            assert(between.take(before.len() as int) == before);
            assert(after.take(between.len() as int) == between);
            assert forall|i: int| 0 <= i < before.len() implies after.take(before.len() as int)[i] == before[i] by {
                assert(between.take(before.len() as int)[i] == between[i]);
                assert(after.take(between.len() as int)[i] == after[i]);
            }
        }
        assert(after.skip(before.len() as int) =~= early + late) by {
            assert forall|i: int| 0 <= i < early.len() implies after.skip(before.len() as int)[i] == early[i] by {
                assert(after.take(between.len() as int)[before.len() + i] == after[before.len() + i]);
            }
        }
        lemma_lists_joined(early, late, from_first, from_second, wanted, order);
    }
}

/// A family that gains one member with fewer rounds than the best length
/// has nothing new to show.
proof fn lemma_merged_with_short(
    before: Seq<Seq<Seq<Seq<usize>>>>,
    best_before: int,
    after: Seq<Seq<Seq<Seq<usize>>>>,
    best_after: int,
    smaller: spec_fn(Seq<Seq<Seq<usize>>>) -> bool,
    short: Seq<Seq<Seq<usize>>>,
    family: spec_fn(Seq<Seq<Seq<usize>>>) -> bool,
)
    requires
        merged(before, best_before, after, best_after, smaller),
        short.len() < best_after,
        forall|s: Seq<Seq<Seq<usize>>>| #[trigger] family(s) ==> smaller(s) || s == short,
        forall|s: Seq<Seq<Seq<usize>>>| #[trigger] smaller(s) ==> family(s),
    ensures
        merged(before, best_before, after, best_after, family),
{
    let order = schedule_order();
    assert forall|s: Seq<Seq<Seq<usize>>>| #[trigger] family(s) implies s.len() <= best_after by {
        if s != short {
            assert(smaller(s));
        }
    }
    assert forall|s: Seq<Seq<Seq<usize>>>| #[trigger] of_length(family, best_after)(s) implies of_length(
        smaller,
        best_after,
    )(s) by {
        assert(family(s));
    }
    assert forall|s: Seq<Seq<Seq<usize>>>| #[trigger] of_length(smaller, best_after)(s) implies of_length(
        family,
        best_after,
    )(s) by {
        assert(smaller(s));
    }
    if best_before < best_after {
        lemma_lists_same(after, of_length(smaller, best_after), of_length(family, best_after), order);
    } else {
        lemma_lists_same(
            after.skip(before.len() as int),
            of_length(smaller, best_after),
            of_length(family, best_after),
            order,
        );
    }
}

/// Every group of the plan has at least two items, so that every round
/// pairs someone.
pub open spec fn pairs_someone(plan: Seq<usize>) -> bool {
    &&& plan.len() >= 1
    &&& forall|p: int| 0 <= p < plan.len() ==> #[trigger] plan[p] >= 2
}

/// With an option committed, the schedules still to be found are the
/// continuations of the longer list of rounds under the new relation.
proof fn lemma_deeper_runs(
    rel: Seq<Seq<bool>>,
    plan: Seq<usize>,
    done: Seq<Seq<Seq<usize>>>,
    options: Seq<Seq<Seq<usize>>>,
    c: int,
)
    requires
        well_formed(rel),
        0 <= c < options.len(),
        is_round(rel, plan, options[c]),
    ensures
        forall|s: Seq<Seq<Seq<usize>>>| #[trigger]
            runs(with_round(rel, options[c], true), plan, done.push(options[c]))(s) ==> runs_through(
                rel,
                plan,
                done,
                options,
                c,
                c + 1,
            )(s),
        forall|s: Seq<Seq<Seq<usize>>>| #[trigger]
            runs_through(rel, plan, done, options, c, c + 1)(s) ==> runs(
                with_round(rel, options[c], true),
                plan,
                done.push(options[c]),
            )(s),
{
    let at = done.len() as int;
    let chosen = options[c];
    let longer = done.push(chosen);
    let marked = with_round(rel, chosen, true);
    assert forall|s: Seq<Seq<Seq<usize>>>| #[trigger] runs(marked, plan, longer)(s) implies runs_through(
        rel,
        plan,
        done,
        options,
        c,
        c + 1,
    )(s) by {
        assert(s.take(at + 1)[at] == s[at]);
        assert(s[at] == chosen);
        assert(s.take(at) =~= done) by {
            assert forall|t: int| 0 <= t < at implies s.take(at)[t] == done[t] by {
                assert(s.take(at + 1)[t] == longer[t]);
            }
        }
        assert forall|t: int| at <= t < s.len() implies is_round(rel, plan, #[trigger] s[t]) by {
            if t > at {
                lemma_round_after_commit(rel, plan, chosen, s[t]);
            }
        }
        assert forall|t: int, u: int| at <= t < u < s.len() implies no_repeat(#[trigger] s[t], #[trigger] s[u]) by {
            if t == at {
                lemma_round_after_commit(rel, plan, chosen, s[u]);
            }
        }
        assert(runs_from(rel, plan, done, s));
        assert(options[c] == s[at]);
    }
    assert forall|s: Seq<Seq<Seq<usize>>>| #[trigger]
        runs_through(rel, plan, done, options, c, c + 1)(s) implies runs(marked, plan, longer)(s) by {
        assert(s[at] == chosen);
        assert(s.take(at + 1) =~= longer) by {
            assert forall|t: int| 0 <= t < at implies s.take(at + 1)[t] == longer[t] by {
                assert(s.take(at)[t] == s[t]);
            }
        }
        assert forall|t: int| at + 1 <= t < s.len() implies is_round(marked, plan, #[trigger] s[t]) by {
            assert(no_repeat(s[at], s[t]));
            lemma_round_after_commit(rel, plan, chosen, s[t]);
        }
        assert(runs_from(marked, plan, longer, s));
    }
}

/// Schedules that part ways at the next round are listed by that round.
proof fn lemma_runs_in_order(
    rel: Seq<Seq<bool>>,
    plan: Seq<usize>,
    done: Seq<Seq<Seq<usize>>>,
    options: Seq<Seq<Seq<usize>>>,
    c: int,
)
    requires
        forall|i: int, j: int| 0 <= i < j < options.len() ==> #[trigger] round_order()(options[i], options[j]),
    ensures
        forall|x: Seq<Seq<Seq<usize>>>, y: Seq<Seq<Seq<usize>>>| #[trigger]
            runs_through(rel, plan, done, options, 0, c)(x) && #[trigger] runs_through(
                rel,
                plan,
                done,
                options,
                c,
                c + 1,
            )(y) ==> schedule_order()(x, y),
{
    let at = done.len() as int;
    assert forall|x: Seq<Seq<Seq<usize>>>, y: Seq<Seq<Seq<usize>>>| #[trigger]
        runs_through(rel, plan, done, options, 0, c)(x) && #[trigger] runs_through(
            rel,
            plan,
            done,
            options,
            c,
            c + 1,
        )(y) implies schedule_order()(x, y) by {
        let i = choose|i: int| 0 <= i < c && 0 <= i < options.len() && #[trigger] options[i] == x[at];
        assert(options[c] == y[at]);
        assert(round_order()(options[i], options[c]));
        assert(x.take(at) == y.take(at));
    }
}

/// Where no round can follow, the only continuation of `done` is `done`.
proof fn lemma_dead_end(rel: Seq<Seq<bool>>, plan: Seq<usize>, done: Seq<Seq<Seq<usize>>>)
    requires
        forall|r: Seq<Seq<usize>>| !#[trigger] is_round(rel, plan, r),
    ensures
        runs(rel, plan, done)(done),
        forall|s: Seq<Seq<Seq<usize>>>| #[trigger] runs(rel, plan, done)(s) ==> s == done,
{
    assert(done.take(done.len() as int) =~= done);
    assert forall|s: Seq<Seq<Seq<usize>>>| #[trigger] runs(rel, plan, done)(s) implies s == done by {
        if s.len() > done.len() {
            assert(is_round(rel, plan, s[done.len() as int]));
        }
        assert(s.take(s.len() as int) =~= s);
    }
}

/// Goes through every schedule that continues `done`, and keeps in `found`
/// the ones with the most rounds met so far, `best` rounds each.
fn extend_schedule(
    conflicts: &mut Vec<BitRow>,
    found: &mut Vec<Assignment>,
    done: &mut Vec<Round>,
    best: &mut usize,
    group_sizes: &[usize],
)
    requires
        well_formed(old(conflicts).deep_view()),
        pairs_someone(group_sizes@),
    ensures
        final(conflicts).deep_view() == old(conflicts).deep_view(),
        final(conflicts).len() == old(conflicts).len(),
        final(done).deep_view() == old(done).deep_view(),
        final(done).len() == old(done).len(),
        merged(
            old(found).deep_view(),
            *old(best) as int,
            final(found).deep_view(),
            *final(best) as int,
            runs(old(conflicts).deep_view(), group_sizes@, old(done).deep_view()),
        ),
    decreases clear_entries(old(conflicts).deep_view()),
{
    let ghost rel = conflicts.deep_view();
    let ghost plan = group_sizes@;
    let ghost stem = done.deep_view();
    let ghost base = found.deep_view();
    let ghost best_before = *best as int;
    let ghost all = runs(rel, plan, stem);
    let at: usize = done.len();
    let options: Vec<Round> = single_assignment(conflicts, group_sizes);
    let ghost rounds = options.deep_view();
    proof {
        assert forall|i: int| 0 <= i < rounds.len() implies is_round(rel, plan, #[trigger] rounds[i]) by {
            assert(rounds_of(rel, plan)(rounds[i]));
        }
    }
    if options.len() == 0 {
        proof {
            assert forall|r: Seq<Seq<usize>>| !#[trigger] is_round(rel, plan, r) by {
                if is_round(rel, plan, r) {
                    assert(rounds_of(rel, plan)(r));
                    assert(rounds.contains(r));
                }
            }
            lemma_dead_end(rel, plan, stem);
        }
        if at >= *best {
            if at > *best {
                found.clear();
            }
            let ghost kept = found.deep_view();
            let whole: Assignment = done.clone();
            found.push(whole);
            *best = at;
            proof {
                assert(found.deep_view() =~= kept.push(stem));
                lemma_lists_one(stem, of_length(all, at as int), schedule_order());
                if best_before < at {
                    assert(kept =~= Seq::empty());
                    assert(found.deep_view() =~= seq![stem]);
                } else {
                    assert(kept == base);
                    assert(found.deep_view().take(base.len() as int) =~= base);
                    assert(found.deep_view().skip(base.len() as int) =~= seq![stem]);
                }
            }
        } else {
            proof {
                assert forall|s: Seq<Seq<Seq<usize>>>| !#[trigger] of_length(all, best_before)(s) by {
                    if of_length(all, best_before)(s) {
                        assert(all(s));
                    }
                }
                lemma_lists_nothing(of_length(all, best_before), schedule_order());
                assert(found.deep_view().take(base.len() as int) =~= base);
                assert(found.deep_view().skip(base.len() as int) =~= Seq::empty());
            }
        }
    } else {
        let mut c: usize = 0;
        proof {
            lemma_merged_nothing(base, best_before, runs_through(rel, plan, stem, rounds, 0, 0));
        }
        while c < options.len()
            invariant
                c <= options.len(),
                rounds == options.deep_view(),
                lists(rounds, rounds_of(rel, plan), round_order()),
                forall|i: int| 0 <= i < rounds.len() ==> is_round(rel, plan, #[trigger] rounds[i]),
                conflicts.deep_view() == rel,
                conflicts.len() == old(conflicts).len(),
                rel == old(conflicts).deep_view(),
                well_formed(rel),
                plan == group_sizes@,
                pairs_someone(plan),
                done.deep_view() == stem,
                done.len() == at,
                merged(
                    base,
                    best_before,
                    found.deep_view(),
                    *best as int,
                    runs_through(rel, plan, stem, rounds, 0, c as int),
                ),
            decreases options.len() - c,
        {
            let ghost so_far = found.deep_view();
            let ghost best_so_far = *best as int;
            let ghost step = runs_through(rel, plan, stem, rounds, c as int, c + 1);
            let ghost chosen = rounds[c as int];
            let round: Round = options[c].clone();
            proof {
                assert(round.deep_view() == chosen);
                assert(round_below(chosen, rel.len() as int)) by {
                    assert forall|p: int| 0 <= p < chosen.len() implies items_below(
                        #[trigger] chosen[p],
                        rel.len() as int,
                    ) by {
                        assert(is_group(rel, no_skips(rel.len()), plan[p] as nat, chosen[p]));
                    }
                }
                lemma_round_committed(rel, plan, chosen);
            }
            set_round(conflicts, &round, true);
            done.push(round);
            proof {
                assert(done.deep_view() =~= stem.push(chosen));
            }
            extend_schedule(conflicts, found, done, best, group_sizes);
            let ghost deepest = done@;
            assert(done.deep_view() == stem.push(chosen));
            match done.pop() {
                Some(last) => {
                    assert(last.deep_view() == chosen) by {
                        assert(stem.push(chosen)[at as int] == chosen);
                        assert(deepest[at as int].deep_view() == chosen);
                    }
                    assert(is_square(conflicts.deep_view()));
                    set_round(conflicts, &last, false);
                },
                None => {},
            }
            proof {
                assert(done.deep_view() =~= stem) by {
                    assert forall|t: int| 0 <= t < at implies done.deep_view()[t] == stem[t] by {
                        assert(deepest[t].deep_view() == stem.push(chosen)[t]);
                    }
                }
                lemma_deeper_runs(rel, plan, stem, rounds, c as int);
                let deeper = runs(with_round(rel, chosen, true), plan, stem.push(chosen));
                assert(merged(so_far, best_so_far, found.deep_view(), *best as int, deeper));
                lemma_merged_same(so_far, best_so_far, found.deep_view(), *best as int, deeper, step);
                lemma_runs_in_order(rel, plan, stem, rounds, c as int);
                lemma_merged_joined(
                    base,
                    best_before,
                    so_far,
                    best_so_far,
                    found.deep_view(),
                    *best as int,
                    runs_through(rel, plan, stem, rounds, 0, c as int),
                    step,
                    runs_through(rel, plan, stem, rounds, 0, c + 1),
                );
            }
            c = c + 1;
        }
        proof {
            let through = runs_through(rel, plan, stem, rounds, 0, rounds.len() as int);
            let first = stem.push(rounds[0]);
            assert(first.take(at as int) =~= stem);
            assert(rounds[0] == first[at as int]);
            assert(runs_from(rel, plan, stem, first));
            assert(through(first));
            assert(stem.take(at as int) =~= stem);
            assert forall|s: Seq<Seq<Seq<usize>>>| #[trigger] all(s) implies through(s) || s == stem by {
                if s.len() > at {
                    assert(rounds_of(rel, plan)(s[at as int]));
                    assert(rounds.contains(s[at as int]));
                    let i = choose|i: int| 0 <= i < rounds.len() && rounds[i] == s[at as int];
                    assert(rounds[i] == s[at as int]);
                } else {
                    assert(s.take(s.len() as int) =~= s);
                }
            }
            lemma_merged_with_short(base, best_before, found.deep_view(), *best as int, through, stem, all);
        }
    }
}

/// Why a request for `min` items per group on the relation `rel` is
/// refused, if it is. The first reason that applies is the one given.
pub open spec fn refusal(rel: Seq<Seq<bool>>, min: nat) -> Option<ConfigError> {
    if rel.len() == 0 {
        Some(ConfigError::EmptyPopulation)
    } else if !well_formed(rel) {
        Some(ConfigError::MalformedRelation)
    } else if min == 0 || min > rel.len() {
        Some(ConfigError::InfeasibleMinimum)
    } else if min == 1 {
        Some(ConfigError::UnboundedRounds)
    } else {
        None
    }
}

/// Lists the longest schedules for the items of `conflicts`, in groups of
/// at least `min_group_size` items.
///
/// Every round of a schedule splits all items into groups of the sizes that
/// `group_sizes` plans, no group holds two items that conflict, and no two
/// items share a group in more than one round. The result holds every
/// schedule that no other schedule exceeds in length, once, in dictionary
/// order. There is always at least one: where not even one round can be
/// formed, it is the schedule without rounds.
///
/// The relation is used for the search and is the same afterwards as it was
/// before.
pub fn make_assignments(conflicts: &mut Vec<BitRow>, min_group_size: usize) -> (outcome: Result<
    Vec<Assignment>,
    ConfigError,
>)
    ensures
        final(conflicts).deep_view() == old(conflicts).deep_view(),
        final(conflicts).len() == old(conflicts).len(),
        match outcome {
            Ok(found) => {
                &&& refusal(old(conflicts).deep_view(), min_group_size as nat) is None
                &&& found.len() >= 1
                &&& lists(
                    found.deep_view(),
                    longest_schedules(
                        old(conflicts).deep_view(),
                        size_plan(old(conflicts).len() as nat, min_group_size as nat),
                    ),
                    schedule_order(),
                )
                &&& forall|i: int, j: int|
                    0 <= i < found.len() && 0 <= j < found.len() ==> (#[trigger] found[i]).len() == (
                    #[trigger] found[j]).len()
                &&& forall|i: int, t: int|
                    0 <= i < found.len() && 0 <= t < found[i].len() ==> is_partition(
                        #[trigger] found.deep_view()[i][t],
                        old(conflicts).len() as nat,
                    )
            },
            Err(reason) => refusal(old(conflicts).deep_view(), min_group_size as nat) == Some(reason),
        },
{
    let ghost rel = conflicts.deep_view();
    let n: usize = conflicts.len();
    if n == 0 {
        return Err(ConfigError::EmptyPopulation);
    }
    if !check_square(conflicts) {
        return Err(ConfigError::MalformedRelation);
    }
    if !check_symmetric(conflicts) {
        return Err(ConfigError::MalformedRelation);
    }
    let sizes: Vec<usize> = match group_sizes(n, min_group_size) {
        Ok(sizes) => sizes,
        Err(reason) => {
            return Err(reason);
        },
    };
    if min_group_size == 1 {
        return Err(ConfigError::UnboundedRounds);
    }
    let ghost plan = sizes@;
    let mut found: Vec<Assignment> = Vec::new();
    let mut done: Vec<Round> = Vec::new();
    let mut best: usize = 0;
    proof {
        lemma_size_plan_balanced(n as nat, min_group_size as nat);
        assert(plan.len() >= 1) by (nonlinear_arith)
            requires
                plan.len() == (n as nat) / (min_group_size as nat),
                1 <= min_group_size <= n,
        ;
    }
    extend_schedule(conflicts, &mut found, &mut done, &mut best, sizes.as_slice());
    proof {
        let nothing = Seq::<Seq<Seq<usize>>>::empty();
        let all = runs(rel, plan, nothing);
        let listed = found.deep_view();
        assert(done.deep_view() =~= nothing);
        assert forall|s: Seq<Seq<Seq<usize>>>| #[trigger] all(s) implies is_schedule(rel, plan, s) by {}
        assert forall|s: Seq<Seq<Seq<usize>>>| #[trigger] is_schedule(rel, plan, s) implies all(s) by {
            assert(s.take(0) =~= nothing);
        }
        assert(is_schedule(rel, plan, nothing));
        assert(all(nothing));
        assert(listed.skip(0) =~= listed);
        assert(lists(listed, of_length(all, best as int), schedule_order()));
        if best == 0 {
            assert(of_length(all, 0)(nothing));
            assert(listed.contains(nothing));
        }
        let witness = listed[0];
        assert(of_length(all, best as int)(witness));
        assert(all(witness));
        assert forall|s: Seq<Seq<Seq<usize>>>| #[trigger] of_length(all, best as int)(s) implies longest_schedules(
            rel,
            plan,
        )(s) by {
            assert(all(s));
            assert forall|other: Seq<Seq<Seq<usize>>>| #[trigger] is_schedule(rel, plan, other) implies other.len()
                <= s.len() by {
                assert(all(other));
            }
        }
        assert forall|s: Seq<Seq<Seq<usize>>>| #[trigger] longest_schedules(rel, plan)(s) implies of_length(
            all,
            best as int,
        )(s) by {
            assert(all(s));
            assert(is_schedule(rel, plan, witness));
        }
        lemma_lists_same(listed, of_length(all, best as int), longest_schedules(rel, plan), schedule_order());
        assert forall|i: int, j: int| 0 <= i < found.len() && 0 <= j < found.len() implies (#[trigger] found[i]).len()
            == (#[trigger] found[j]).len() by {
            assert(of_length(all, best as int)(listed[i]));
            assert(of_length(all, best as int)(listed[j]));
            assert(listed[i].len() == found[i].len());
            assert(listed[j].len() == found[j].len());
        }
        assert forall|i: int, t: int| 0 <= i < found.len() && 0 <= t < found[i].len() implies is_partition(
            #[trigger] listed[i][t],
            n as nat,
        ) by {
            assert(of_length(all, best as int)(listed[i]));
            assert(all(listed[i]));
            assert(listed[i].len() == found[i].len());
            lemma_schedule_rounds_partition(rel, min_group_size as nat, listed[i]);
        }
    }
    Ok(found)
}

} // verus!
