//! The group enumerator: every way to pick one group of a given size.

use crate::bit_rows::BitRow;
use crate::listing::{
    is_strict, lemma_lex_strict, lemma_lists_joined, lemma_lists_nothing, lemma_lists_one,
    lemma_lists_same, lex_before, lists,
};
use crate::relation::{
    add_conflicts, has_item, items_below, lemma_links_undone, lemma_links_well_formed,
    remove_conflicts, well_formed, with_links,
};
use vstd::prelude::*;

verus! {

/// The items of one group, in ascending order.
pub type Group = Vec<usize>;

/// `g` is a group of `k` items: its items are listed in ascending order,
/// none of them is skipped, and no two of them conflict.
pub open spec fn is_group(rel: Seq<Seq<bool>>, skip: Seq<bool>, k: nat, g: Seq<usize>) -> bool {
    &&& g.len() == k
    &&& forall|i: int| 0 <= i < g.len() ==> (#[trigger] g[i]) < rel.len() && !skip[g[i] as int]
    &&& forall|i: int, j: int|
        0 <= i < j < g.len() ==> (#[trigger] g[i]) < (#[trigger] g[j]) && !rel[g[i] as int][g[j] as int]
}

/// The family of all groups of `k` items.
pub open spec fn groups_of(rel: Seq<Seq<bool>>, skip: Seq<bool>, k: nat) -> spec_fn(Seq<usize>) -> bool {
    |g: Seq<usize>| is_group(rel, skip, k, g)
}

/// The order of items.
pub open spec fn item_order() -> spec_fn(usize, usize) -> bool {
    |x: usize, y: usize| x < y
}

/// The order in which groups are listed: dictionary order on their items.
pub open spec fn group_order() -> spec_fn(Seq<usize>, Seq<usize>) -> bool {
    |a: Seq<usize>, b: Seq<usize>| lex_before(a, b, item_order())
}

/// The order of groups is a strict order.
pub proof fn lemma_group_order_strict()
    ensures
        is_strict(group_order()),
{
    assert(is_strict(item_order()));
    lemma_lex_strict(item_order(), group_order());
}

/// `g` completes `partial` to `k` items. Whatever `partial` holds is taken
/// as settled: only the items added to it are held against the skip mask,
/// and only pairs with an added item are held against the relation.
spec fn grows_from(rel: Seq<Seq<bool>>, skip: Seq<bool>, k: nat, partial: Seq<usize>, g: Seq<usize>) -> bool {
    &&& g.len() == k
    &&& partial.len() <= k
    &&& g.take(partial.len() as int) == partial
    &&& forall|i: int| 0 <= i < g.len() ==> (#[trigger] g[i]) < rel.len()
    &&& forall|i: int| partial.len() <= i < g.len() ==> !skip[(#[trigger] g[i]) as int]
    &&& forall|i: int, j: int| 0 <= i < j < g.len() ==> (#[trigger] g[i]) < (#[trigger] g[j])
    &&& forall|i: int, j: int|
        0 <= i < j < g.len() && partial.len() <= j ==> !rel[(#[trigger] g[i]) as int][(#[trigger] g[j]) as int]
}

/// The completions of `partial` whose first added item is in `lo..hi`.
spec fn growths(
    rel: Seq<Seq<bool>>,
    skip: Seq<bool>,
    k: nat,
    partial: Seq<usize>,
    lo: int,
    hi: int,
) -> spec_fn(Seq<usize>) -> bool {
    |g: Seq<usize>|
        partial.len() < k && grows_from(rel, skip, k, partial, g) && lo <= g[partial.len() as int] < hi
}

/// `col` may join `partial`: it is not skipped and conflicts with none of
/// the items chosen so far.
spec fn may_join(rel: Seq<Seq<bool>>, skip: Seq<bool>, partial: Seq<usize>, col: int) -> bool {
    &&& !skip[col]
    &&& forall|i: int| 0 <= i < partial.len() ==> !rel[(#[trigger] partial[i]) as int][col]
}

/// Whether `col` conflicts with none of the items of `partial`.
fn fits(conflicts: &Vec<BitRow>, partial: &Vec<usize>, col: usize) -> (free: bool)
    requires
        well_formed(conflicts.deep_view()),
        items_below(partial@, conflicts.len() as int),
        col < conflicts.len(),
    ensures
        free == forall|i: int|
            0 <= i < partial.len() ==> !conflicts.deep_view()[(#[trigger] partial[i]) as int][col as int],
{
    let ghost rel = conflicts.deep_view();
    let mut i: usize = 0;
    while i < partial.len()
        invariant
            rel == conflicts.deep_view(),
            well_formed(rel),
            items_below(partial@, conflicts.len() as int),
            col < conflicts.len(),
            i <= partial.len(),
            forall|m: int| 0 <= m < i ==> !rel[(#[trigger] partial[m]) as int][col as int],
        decreases partial.len() - i,
    {
        let row: usize = partial[i];
        assert(rel[row as int].len() == conflicts.len());
        if conflicts[row].get(col) {
            assert(rel[partial[i as int] as int][col as int]);
            return false;
        }
        i = i + 1;
    }
    true
}

/// `partial` is in ascending order and all of its items are below `bound`.
spec fn settled(partial: Seq<usize>, bound: int) -> bool {
    &&& forall|i: int| 0 <= i < partial.len() ==> (#[trigger] partial[i]) < bound
    &&& forall|i: int, j: int| 0 <= i < j < partial.len() ==> (#[trigger] partial[i]) < (#[trigger] partial[j])
}

/// An item that may not join leads to no group.
proof fn lemma_no_growth(rel: Seq<Seq<bool>>, skip: Seq<bool>, k: nat, partial: Seq<usize>, col: int)
    requires
        !may_join(rel, skip, partial, col),
    ensures
        forall|g: Seq<usize>| !#[trigger] growths(rel, skip, k, partial, col, col + 1)(g),
{
    let at = partial.len() as int;
    assert forall|g: Seq<usize>| !#[trigger] growths(rel, skip, k, partial, col, col + 1)(g) by {
        if growths(rel, skip, k, partial, col, col + 1)(g) {
            assert(g[at] == col);
            assert(!skip[g[at] as int]);
            assert forall|i: int| 0 <= i < partial.len() implies !rel[(#[trigger] partial[i]) as int][col] by {
                assert(g.take(at)[i] == g[i]);
                assert(!rel[g[i] as int][g[at] as int]);
            }
        }
    }
}

/// The item that brings `partial` to `k` items leads to exactly one group.
proof fn lemma_last_growth(rel: Seq<Seq<bool>>, skip: Seq<bool>, k: nat, partial: Seq<usize>, col: usize)
    requires
        may_join(rel, skip, partial, col as int),
        partial.len() + 1 == k,
        settled(partial, col as int),
        col < rel.len(),
    ensures
        growths(rel, skip, k, partial, col as int, col + 1)(partial.push(col)),
        forall|g: Seq<usize>| #[trigger]
            growths(rel, skip, k, partial, col as int, col + 1)(g) ==> g == partial.push(col),
{
    let at = partial.len() as int;
    let whole = partial.push(col);
    assert(whole.take(at) == partial);
    assert(grows_from(rel, skip, k, partial, whole));
    assert forall|g: Seq<usize>| #[trigger]
        growths(rel, skip, k, partial, col as int, col + 1)(g) implies g == whole by {
        assert(g[at] == col);
        assert forall|i: int| 0 <= i < at implies g[i] == whole[i] by {
            assert(g.take(at)[i] == g[i]);
        }
        assert(g =~= whole);
    }
}

/// With `col` chosen and marked, the groups still to be found are the
/// completions of the longer partial group under the marked relation.
proof fn lemma_deeper_growths(rel: Seq<Seq<bool>>, skip: Seq<bool>, k: nat, partial: Seq<usize>, col: usize)
    requires
        may_join(rel, skip, partial, col as int),
        partial.len() + 1 < k,
        col < rel.len(),
        well_formed(rel),
    ensures
        forall|g: Seq<usize>| #[trigger]
            growths(with_links(rel, col as int, partial, true), skip, k, partial.push(col), col + 1, rel.len() as int)(g)
                ==> growths(rel, skip, k, partial, col as int, col + 1)(g),
        forall|g: Seq<usize>| #[trigger]
            growths(rel, skip, k, partial, col as int, col + 1)(g) ==> growths(
                with_links(rel, col as int, partial, true),
                skip,
                k,
                partial.push(col),
                col + 1,
                rel.len() as int,
            )(g),
{
    let at = partial.len() as int;
    let longer = partial.push(col);
    let marked = with_links(rel, col as int, partial, true);
    let n = rel.len() as int;
    assert forall|g: Seq<usize>| #[trigger] growths(marked, skip, k, longer, col + 1, n)(g) implies growths(
        rel,
        skip,
        k,
        partial,
        col as int,
        col + 1,
    )(g) by {
        assert(g.take(at + 1)[at] == g[at]);
        assert(g.take(at) =~= partial) by {
            assert forall|i: int| 0 <= i < at implies g.take(at)[i] == partial[i] by {
                assert(g.take(at + 1)[i] == longer[i]);
            }
        }
        lemma_mark_unseen(rel, partial, col, g);
        assert forall|i: int, j: int| 0 <= i < j < g.len() && at <= j implies !rel[(#[trigger] g[i]) as int][(
        #[trigger] g[j]) as int] by {
            if j == at {
                assert(g.take(at)[i] == g[i]);
                assert(!rel[partial[i] as int][col as int]);
            } else {
                assert(!marked[g[i] as int][g[j] as int]);
            }
        }
        assert(grows_from(rel, skip, k, partial, g));
    }
    assert forall|g: Seq<usize>| #[trigger]
        growths(rel, skip, k, partial, col as int, col + 1)(g) implies growths(marked, skip, k, longer, col + 1, n)(
        g,
    ) by {
        assert(g[at] == col);
        assert(g.take(at + 1) =~= longer) by {
            assert forall|i: int| 0 <= i < at implies g.take(at + 1)[i] == longer[i] by {
                assert(g.take(at)[i] == g[i]);
            }
        }
        lemma_mark_unseen(rel, partial, col, g);
        assert(g[at] < g[at + 1]);
        assert(grows_from(marked, skip, k, longer, g));
    }
}

/// Marking `col` against `partial` changes no entry that a completion of
/// `partial` and `col` still has to pass.
proof fn lemma_mark_unseen(rel: Seq<Seq<bool>>, partial: Seq<usize>, col: usize, g: Seq<usize>)
    requires
        partial.len() < g.len(),
        g.take(partial.len() as int) == partial,
        g[partial.len() as int] == col,
        col < rel.len(),
        well_formed(rel),
        forall|i: int| 0 <= i < g.len() ==> (#[trigger] g[i]) < rel.len(),
        forall|i: int, j: int| 0 <= i < j < g.len() ==> (#[trigger] g[i]) < (#[trigger] g[j]),
    ensures
        forall|i: int, j: int|
            0 <= i < j < g.len() && partial.len() < j ==> with_links(rel, col as int, partial, true)[(
            #[trigger] g[i]) as int][(#[trigger] g[j]) as int] == rel[g[i] as int][g[j] as int],
{
    let at = partial.len() as int;
    let marked = with_links(rel, col as int, partial, true);
    assert forall|i: int, j: int| 0 <= i < j < g.len() && at < j implies marked[(#[trigger] g[i]) as int][(
    #[trigger] g[j]) as int] == rel[g[i] as int][g[j] as int] by {
        assert(g[at] < g[j]);
        if has_item(partial, g[j] as int) {
            let m = choose|m: int| 0 <= m < partial.len() && #[trigger] partial[m] == g[j] as int;
            assert(g.take(at)[m] == g[m]);
            assert(g[m] < g[j]);
        }
    }
}

/// Groups that part ways at the first added item are listed by that item.
proof fn lemma_growths_in_order(rel: Seq<Seq<bool>>, skip: Seq<bool>, k: nat, partial: Seq<usize>, lo: int, col: int)
    ensures
        forall|x: Seq<usize>, y: Seq<usize>| #[trigger]
            growths(rel, skip, k, partial, lo, col)(x) && #[trigger] growths(rel, skip, k, partial, col, col + 1)(y)
                ==> group_order()(x, y),
{
    let at = partial.len() as int;
    assert forall|x: Seq<usize>, y: Seq<usize>| #[trigger]
        growths(rel, skip, k, partial, lo, col)(x) && #[trigger] growths(rel, skip, k, partial, col, col + 1)(
            y,
        ) implies group_order()(x, y) by {
        assert(x.take(at) == y.take(at));
        assert(item_order()(x[at], y[at]));
    }
}

/// Appends to `found` every group that completes `partial` with items from
/// `from` on, in dictionary order.
fn extend_group(
    conflicts: &mut Vec<BitRow>,
    found: &mut Vec<Group>,
    partial: &mut Vec<usize>,
    from: usize,
    k: usize,
    skip: &BitRow,
)
    requires
        well_formed(old(conflicts).deep_view()),
        skip@.len() == old(conflicts).len(),
        old(partial).len() < k,
        from <= old(conflicts).len(),
        settled(old(partial)@, from as int),
    ensures
        final(conflicts).deep_view() == old(conflicts).deep_view(),
        final(conflicts).len() == old(conflicts).len(),
        final(partial)@ == old(partial)@,
        old(found).len() <= final(found).len(),
        final(found).deep_view().take(old(found).len() as int) == old(found).deep_view(),
        lists(
            final(found).deep_view().skip(old(found).len() as int),
            growths(
                old(conflicts).deep_view(),
                skip@,
                k as nat,
                old(partial)@,
                from as int,
                old(conflicts).len() as int,
            ),
            group_order(),
        ),
    decreases old(conflicts).len() - from,
{
    let n: usize = conflicts.len();
    let ghost rel = conflicts.deep_view();
    let ghost stem = partial@;
    let ghost base = found.deep_view();
    let mut col: usize = from;
    proof {
        assert(found.deep_view().take(base.len() as int) =~= base);
        assert(found.deep_view().skip(base.len() as int) =~= Seq::empty());
        lemma_lists_nothing(growths(rel, skip@, k as nat, stem, from as int, from as int), group_order());
    }
    while col < n
        invariant
            from <= col <= n,
            n == conflicts.len(),
            n == old(conflicts).len(),
            conflicts.deep_view() == rel,
            well_formed(rel),
            skip@.len() == n,
            partial@ == stem,
            stem.len() < k,
            settled(stem, from as int),
            base.len() <= found.len(),
            found.deep_view().take(base.len() as int) == base,
            lists(
                found.deep_view().skip(base.len() as int),
                growths(rel, skip@, k as nat, stem, from as int, col as int),
                group_order(),
            ),
        decreases n - col,
    {
        let ghost listed = found.deep_view().skip(base.len() as int);
        let ghost so_far = found.deep_view();
        let ghost step = growths(rel, skip@, k as nat, stem, col as int, col + 1);
        let free: bool = !skip.get(col) && fits(conflicts, partial, col);
        assert(free == may_join(rel, skip@, stem, col as int));
        if free {
            if partial.len() + 1 == k {
                partial.push(col);
                let whole: Group = partial.clone();
                partial.pop();
                assert(partial@ == stem);
                assert(whole@ == stem.push(col));
                assert(whole.deep_view() =~= stem.push(col));
                found.push(whole);
                proof {
                    lemma_last_growth(rel, skip@, k as nat, stem, col);
                    lemma_lists_one(stem.push(col), step, group_order());
                    assert(found.deep_view() =~= so_far + seq![stem.push(col)]);
                    assert(found.deep_view().skip(so_far.len() as int) =~= seq![stem.push(col)]);
                }
            } else {
                add_conflicts(conflicts, col, partial);
                partial.push(col);
                proof {
                    lemma_links_well_formed(rel, col as int, stem, true);
                }
                extend_group(conflicts, found, partial, col + 1, k, skip);
                partial.pop();
                assert(partial@ == stem);
                remove_conflicts(conflicts, col, partial);
                proof {
                    lemma_links_undone(rel, col as int, stem);
                    lemma_deeper_growths(rel, skip@, k as nat, stem, col);
                    let deeper = growths(
                        with_links(rel, col as int, stem, true),
                        skip@,
                        k as nat,
                        stem.push(col),
                        col + 1,
                        n as int,
                    );
                    lemma_lists_same(found.deep_view().skip(so_far.len() as int), deeper, step, group_order());
                    assert(found.deep_view() =~= so_far + found.deep_view().skip(so_far.len() as int));
                    assert(lists(found.deep_view().skip(so_far.len() as int), step, group_order()));
                }
            }
        } else {
            proof {
                lemma_no_growth(rel, skip@, k as nat, stem, col as int);
                lemma_lists_nothing(step, group_order());
                assert(found.deep_view().skip(so_far.len() as int) =~= Seq::empty());
            }
        }
        proof {
            let added = found.deep_view().skip(so_far.len() as int);
            assert(found.deep_view() == so_far + added);
            assert(lists(added, step, group_order()));
            lemma_growths_in_order(rel, skip@, k as nat, stem, from as int, col as int);
            lemma_lists_joined(
                listed,
                added,
                growths(rel, skip@, k as nat, stem, from as int, col as int),
                step,
                growths(rel, skip@, k as nat, stem, from as int, col + 1),
                group_order(),
            );
            assert(found.deep_view().skip(base.len() as int) =~= listed + added);
            assert(found.deep_view().take(base.len() as int) =~= base);
        }
        col = col + 1;
    }
}

/// Lists every group of `k` items that are not skipped and do not conflict
/// with each other. Each group has its items in ascending order, and the
/// groups come in dictionary order.
///
/// While it searches, the function marks the items of an unfinished group as
/// conflicting with each other. Every mark is cleared again before it
/// returns.
pub fn potential_groups(conflicts: &mut Vec<BitRow>, k: usize, skip: &BitRow) -> (found: Vec<Group>)
    requires
        well_formed(old(conflicts).deep_view()),
        skip@.len() == old(conflicts).len(),
        k >= 1,
    ensures
        final(conflicts).deep_view() == old(conflicts).deep_view(),
        final(conflicts).len() == old(conflicts).len(),
        lists(found.deep_view(), groups_of(old(conflicts).deep_view(), skip@, k as nat), group_order()),
{
    let ghost rel = conflicts.deep_view();
    let mut found: Vec<Group> = Vec::new();
    let mut partial: Vec<usize> = Vec::new();
    extend_group(conflicts, &mut found, &mut partial, 0, k, skip);
    proof {
        let all = growths(rel, skip@, k as nat, Seq::<usize>::empty(), 0, rel.len() as int);
        assert(found.deep_view().skip(0) =~= found.deep_view());
        assert forall|g: Seq<usize>| #[trigger] all(g) implies groups_of(rel, skip@, k as nat)(g) by {}
        assert forall|g: Seq<usize>| #[trigger] groups_of(rel, skip@, k as nat)(g) implies all(g) by {
            assert(g.take(0) =~= Seq::<usize>::empty());
        }
        lemma_lists_same(found.deep_view(), all, groups_of(rel, skip@, k as nat), group_order());
    }
    found
}

} // verus!
