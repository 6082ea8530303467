//! The conflict relation: which pairs of items may no longer share a group.
//!
//! The relation is a square matrix of bits, one [`BitRow`] per item. Its
//! mathematical value is the sequence of its rows, each a sequence of
//! booleans.

use crate::bit_rows::BitRow;
use vstd::prelude::*;

verus! {

/// Every row is as long as the relation has rows.
pub open spec fn is_square(rel: Seq<Seq<bool>>) -> bool {
    forall|a: int| 0 <= a < rel.len() ==> (#[trigger] rel[a]).len() == rel.len()
}

/// `a` conflicts with `b` exactly when `b` conflicts with `a`.
pub open spec fn is_symmetric(rel: Seq<Seq<bool>>) -> bool {
    forall|a: int, b: int|
        0 <= a < rel.len() && 0 <= b < rel.len() ==> #[trigger] rel[a][b] == #[trigger] rel[b][a]
}

/// A relation the search can work on: square and symmetric.
pub open spec fn well_formed(rel: Seq<Seq<bool>>) -> bool {
    is_square(rel) && is_symmetric(rel)
}

/// `x` is one of the items of `g`.
pub open spec fn has_item(g: Seq<usize>, x: int) -> bool {
    exists|i: int| 0 <= i < g.len() && #[trigger] g[i] == x
}

/// `rel` with the entry in row `a`, column `b` replaced by `value`.
pub open spec fn with_entry(rel: Seq<Seq<bool>>, a: int, b: int, value: bool) -> Seq<Seq<bool>> {
    rel.update(a, rel[a].update(b, value))
}

/// `rel` with every entry between `item` and one of `others`, in both
/// directions, replaced by `value`.
pub open spec fn with_links(rel: Seq<Seq<bool>>, item: int, others: Seq<usize>, value: bool) -> Seq<
    Seq<bool>,
> {
    Seq::new(
        rel.len(),
        |a: int|
            Seq::new(
                rel[a].len(),
                |b: int|
                    if (a == item && has_item(others, b)) || (b == item && has_item(others, a)) {
                        value
                    } else {
                        rel[a][b]
                    },
            ),
    )
}

/// `rel` with every entry between two different items of `g` replaced by
/// `value`. The diagonal is left alone.
pub open spec fn with_pairs(rel: Seq<Seq<bool>>, g: Seq<usize>, value: bool) -> Seq<Seq<bool>> {
    Seq::new(
        rel.len(),
        |a: int|
            Seq::new(
                rel[a].len(),
                |b: int|
                    if a != b && has_item(g, a) && has_item(g, b) {
                        value
                    } else {
                        rel[a][b]
                    },
            ),
    )
}

/// Whether the relation has as many columns in every row as it has rows.
pub fn check_square(conflicts: &Vec<BitRow>) -> (square: bool)
    ensures
        square == is_square(conflicts.deep_view()),
{
    let n: usize = conflicts.len();
    let mut a: usize = 0;
    while a < n
        invariant
            n == conflicts.len(),
            a <= n,
            forall|r: int| 0 <= r < a ==> (#[trigger] conflicts.deep_view()[r]).len() == n,
        decreases n - a,
    {
        if conflicts[a].len() != n {
            assert(conflicts.deep_view()[a as int].len() != n);
            return false;
        }
        a = a + 1;
    }
    true
}

/// Whether a square relation is symmetric.
pub fn check_symmetric(conflicts: &Vec<BitRow>) -> (symmetric: bool)
    requires
        is_square(conflicts.deep_view()),
    ensures
        symmetric == is_symmetric(conflicts.deep_view()),
{
    let n: usize = conflicts.len();
    let ghost rel = conflicts.deep_view();
    let mut a: usize = 0;
    while a < n
        invariant
            n == conflicts.len(),
            rel == conflicts.deep_view(),
            is_square(rel),
            a <= n,
            forall|r: int, c: int| 0 <= r < a && 0 <= c < r ==> #[trigger] rel[r][c] == #[trigger] rel[c][r],
        decreases n - a,
    {
        let mut b: usize = 0;
        while b < a
            invariant
                n == conflicts.len(),
                rel == conflicts.deep_view(),
                is_square(rel),
                a < n,
                b <= a,
                forall|r: int, c: int|
                    0 <= r < a && 0 <= c < r ==> #[trigger] rel[r][c] == #[trigger] rel[c][r],
                forall|c: int| 0 <= c < b ==> #[trigger] rel[a as int][c] == rel[c][a as int],
            decreases a - b,
        {
            assert(rel[a as int].len() == n && rel[b as int].len() == n);
            if conflicts[a].get(b) != conflicts[b].get(a) {
                assert(rel[a as int][b as int] != rel[b as int][a as int]);
                return false;
            }
            b = b + 1;
        }
        a = a + 1;
    }
    assert forall|r: int, c: int| 0 <= r < n && 0 <= c < n implies #[trigger] rel[r][c]
        == #[trigger] rel[c][r] by {
        if c < r {
        } else if r < c {
            assert(rel[c][r] == rel[r][c]);
        }
    }
    true
}

/// Writes one entry of the relation.
fn write_entry(conflicts: &mut Vec<BitRow>, a: usize, b: usize, value: bool)
    requires
        is_square(old(conflicts).deep_view()),
        a < old(conflicts).len(),
        b < old(conflicts).len(),
    ensures
        final(conflicts).deep_view() == with_entry(old(conflicts).deep_view(), a as int, b as int, value),
        is_square(final(conflicts).deep_view()),
        final(conflicts).len() == old(conflicts).len(),
{
    assert(old(conflicts).deep_view()[a as int].len() == old(conflicts).len());
    conflicts[a].set(b, value);
    assert(conflicts.deep_view() =~= with_entry(old(conflicts).deep_view(), a as int, b as int, value));
}

/// The items of `g` are all below `n`.
pub open spec fn items_below(g: Seq<usize>, n: int) -> bool {
    forall|i: int| 0 <= i < g.len() ==> #[trigger] g[i] < n
}

/// One more item at the end of `g` is one more item that `g` has.
pub(crate) proof fn lemma_has_item_push(g: Seq<usize>, last: usize, x: int)
    ensures
        has_item(g.push(last), x) <==> has_item(g, x) || x == last,
{
    let longer = g.push(last);
    if has_item(g, x) {
        let i = choose|i: int| 0 <= i < g.len() && #[trigger] g[i] == x;
        assert(longer[i] == x);
    }
    if x == last {
        assert(longer[g.len() as int] == x);
    }
    if has_item(longer, x) {
        let i = choose|i: int| 0 <= i < longer.len() && #[trigger] longer[i] == x;
        if i < g.len() {
            assert(g[i] == x);
        }
    }
}

/// Sets every entry between `item` and one of `others`, in both directions,
/// to `value`.
fn set_links(conflicts: &mut Vec<BitRow>, item: usize, others: &Vec<usize>, value: bool)
    requires
        is_square(old(conflicts).deep_view()),
        item < old(conflicts).len(),
        items_below(others@, old(conflicts).len() as int),
    ensures
        final(conflicts).deep_view() == with_links(
            old(conflicts).deep_view(),
            item as int,
            others@,
            value,
        ),
        final(conflicts).len() == old(conflicts).len(),
{
    let ghost start = conflicts.deep_view();
    let mut i: usize = 0;
    assert(conflicts.deep_view() =~~= with_links(start, item as int, others@.take(0), value)) by {
        assert forall|x: int| !has_item(others@.take(0), x) by {}
    }
    while i < others.len()
        invariant
            i <= others.len(),
            is_square(start),
            item < start.len(),
            conflicts.len() == start.len(),
            items_below(others@, start.len() as int),
            conflicts.deep_view() == with_links(start, item as int, others@.take(i as int), value),
        decreases others.len() - i,
    {
        let other: usize = others[i];
        let ghost before = others@.take(i as int);
        let ghost after = others@.take(i + 1);
        assert(is_square(conflicts.deep_view()));
        write_entry(conflicts, other, item, value);
        write_entry(conflicts, item, other, value);
        proof {
            assert(after == before.push(other));
            assert forall|x: int| has_item(after, x) <==> has_item(before, x) || x == other by {
                lemma_has_item_push(before, other, x);
            }
            assert(conflicts.deep_view() =~~= with_links(start, item as int, after, value));
        }
        i = i + 1;
    }
    assert(others@.take(others.len() as int) == others@);
}

/// Marks `col` and every item of `rows` as conflicting with each other.
pub(crate) fn add_conflicts(conflicts: &mut Vec<BitRow>, col: usize, rows: &Vec<usize>)
    requires
        is_square(old(conflicts).deep_view()),
        col < old(conflicts).len(),
        items_below(rows@, old(conflicts).len() as int),
    ensures
        final(conflicts).deep_view() == with_links(old(conflicts).deep_view(), col as int, rows@, true),
        final(conflicts).len() == old(conflicts).len(),
{
    set_links(conflicts, col, rows, true);
}

/// Clears what `add_conflicts` marked for the same `col` and `rows`.
pub(crate) fn remove_conflicts(conflicts: &mut Vec<BitRow>, col: usize, rows: &Vec<usize>)
    requires
        is_square(old(conflicts).deep_view()),
        col < old(conflicts).len(),
        items_below(rows@, old(conflicts).len() as int),
    ensures
        final(conflicts).deep_view() == with_links(old(conflicts).deep_view(), col as int, rows@, false),
        final(conflicts).len() == old(conflicts).len(),
{
    set_links(conflicts, col, rows, false);
}

/// Marking links keeps a well-formed relation well-formed.
pub(crate) proof fn lemma_links_well_formed(rel: Seq<Seq<bool>>, item: int, others: Seq<usize>, value: bool)
    requires
        well_formed(rel),
    ensures
        well_formed(with_links(rel, item, others, value)),
{
    let marked = with_links(rel, item, others, value);
    assert forall|a: int, b: int| 0 <= a < marked.len() && 0 <= b < marked.len() implies #[trigger] marked[a][b]
        == #[trigger] marked[b][a] by {
        assert(rel[a][b] == rel[b][a]);
    }
}

/// Clearing links that were all clear before they were marked gives back
/// the relation as it was.
pub(crate) proof fn lemma_links_undone(rel: Seq<Seq<bool>>, item: int, others: Seq<usize>)
    requires
        well_formed(rel),
        0 <= item < rel.len(),
        items_below(others, rel.len() as int),
        forall|i: int| 0 <= i < others.len() ==> !rel[#[trigger] others[i] as int][item],
    ensures
        with_links(with_links(rel, item, others, true), item, others, false) == rel,
{
    let marked = with_links(rel, item, others, true);
    let cleared = with_links(marked, item, others, false);
    assert forall|a: int, b: int| 0 <= a < rel.len() && 0 <= b < rel.len() implies cleared[a][b]
        == rel[a][b] by {
        if a == item && has_item(others, b) {
            let i = choose|i: int| 0 <= i < others.len() && #[trigger] others[i] == b;
            assert(!rel[others[i] as int][item]);
            assert(rel[b][a] == rel[a][b]);
        } else if b == item && has_item(others, a) {
            let i = choose|i: int| 0 <= i < others.len() && #[trigger] others[i] == a;
            assert(!rel[others[i] as int][item]);
        }
    }
    assert(cleared =~~= rel);
}

/// `rel` while the pairs of `g` are being written row by row: the rows of
/// the first `rows` items are finished, and the row of the next item is
/// written up to the columns of its first `cols` items.
spec fn pairs_written(rel: Seq<Seq<bool>>, g: Seq<usize>, rows: int, cols: int, value: bool) -> Seq<Seq<bool>> {
    Seq::new(
        rel.len(),
        |a: int|
            Seq::new(
                rel[a].len(),
                |b: int|
                    if a != b && has_item(g, a) && has_item(g, b) && (has_item(g.take(rows), a) || (rows
                        < g.len() && a == g[rows] && has_item(g.take(cols), b))) {
                        value
                    } else {
                        rel[a][b]
                    },
            ),
    )
}

/// The items of a prefix of `g` one longer are those of the prefix and the
/// item after it.
proof fn lemma_has_item_take(g: Seq<usize>, upto: int)
    requires
        0 <= upto < g.len(),
    ensures
        forall|x: int| has_item(g.take(upto + 1), x) <==> has_item(g.take(upto), x) || x == g[upto],
        forall|x: int| !has_item(g.take(0), x),
        forall|x: int| has_item(g.take(g.len() as int), x) <==> has_item(g, x),
{
    assert(g.take(upto + 1) == g.take(upto).push(g[upto]));
    assert forall|x: int| has_item(g.take(upto + 1), x) <==> has_item(g.take(upto), x) || x == g[upto] by {
        lemma_has_item_push(g.take(upto), g[upto], x);
    }
    assert(g.take(g.len() as int) == g);
}

/// Sets every entry between two different items of `between` to `value`.
fn set_pairs(conflicts: &mut Vec<BitRow>, between: &Vec<usize>, value: bool)
    requires
        is_square(old(conflicts).deep_view()),
        items_below(between@, old(conflicts).len() as int),
    ensures
        final(conflicts).deep_view() == with_pairs(old(conflicts).deep_view(), between@, value),
        final(conflicts).len() == old(conflicts).len(),
{
    let ghost start = conflicts.deep_view();
    let ghost g = between@;
    let count: usize = between.len();
    let mut i: usize = 0;
    proof {
        if count > 0 {
            lemma_has_item_take(g, 0);
        } else {
            assert forall|x: int| !has_item(g.take(0), x) by {}
        }
        assert(conflicts.deep_view() =~~= pairs_written(start, g, 0, 0, value));
    }
    while i < count
        invariant
            i <= count,
            count == between.len(),
            g == between@,
            is_square(start),
            conflicts.len() == start.len(),
            items_below(g, start.len() as int),
            conflicts.deep_view() == pairs_written(start, g, i as int, 0, value),
        decreases count - i,
    {
        let mut j: usize = 0;
        while j < count
            invariant
                i < count,
                j <= count,
                count == between.len(),
                g == between@,
                is_square(start),
                conflicts.len() == start.len(),
                items_below(g, start.len() as int),
                conflicts.deep_view() == pairs_written(start, g, i as int, j as int, value),
            decreases count - j,
        {
            let a: usize = between[i];
            let b: usize = between[j];
            let ghost before = conflicts.deep_view();
            assert(is_square(before));
            if a != b {
                write_entry(conflicts, a, b, value);
            }
            proof {
                lemma_has_item_take(g, j as int);
                assert(g[i as int] == a && g[j as int] == b);
                assert(has_item(g, a as int) && has_item(g, b as int));
                let after = conflicts.deep_view();
                let wanted = pairs_written(start, g, i as int, j + 1, value);
                assert(before[a as int].len() == start.len());
                assert forall|x: int, y: int| 0 <= x < start.len() && 0 <= y < start.len() implies after[x][y]
                    == wanted[x][y] by {
                    assert(start[x].len() == start.len());
                    assert(before[x][y] == pairs_written(start, g, i as int, j as int, value)[x][y]);
                    if x == a && y == b && a != b {
                        assert(after[x][y] == value);
                    } else {
                        assert(after[x][y] == before[x][y]);
                    }
                }
                assert forall|x: int| 0 <= x < start.len() implies after[x].len() == wanted[x].len() by {
                    assert(start[x].len() == start.len());
                    assert(before[x].len() == start.len());
                }
                assert(after =~~= wanted);
            }
            j = j + 1;
        }
        proof {
            lemma_has_item_take(g, i as int);
            if i + 1 < count {
                lemma_has_item_take(g, i + 1);
            }
            assert(conflicts.deep_view() =~~= pairs_written(start, g, i + 1, 0, value));
        }
        i = i + 1;
    }
    proof {
        if count > 0 {
            lemma_has_item_take(g, 0);
        }
        assert(g.take(count as int) == g);
        assert(conflicts.deep_view() =~~= with_pairs(start, g, value));
    }
}

/// Marks every two different items of `between` as conflicting with each
/// other.
pub(crate) fn add_conflicts_between(conflicts: &mut Vec<BitRow>, between: &Vec<usize>)
    requires
        is_square(old(conflicts).deep_view()),
        items_below(between@, old(conflicts).len() as int),
    ensures
        final(conflicts).deep_view() == with_pairs(old(conflicts).deep_view(), between@, true),
        final(conflicts).len() == old(conflicts).len(),
{
    set_pairs(conflicts, between, true);
}

/// Clears what `add_conflicts_between` marked for the same items.
pub(crate) fn remove_conflicts_between(conflicts: &mut Vec<BitRow>, between: &Vec<usize>)
    requires
        is_square(old(conflicts).deep_view()),
        items_below(between@, old(conflicts).len() as int),
    ensures
        final(conflicts).deep_view() == with_pairs(old(conflicts).deep_view(), between@, false),
        final(conflicts).len() == old(conflicts).len(),
{
    set_pairs(conflicts, between, false);
}

/// The number of clear bits in a row.
pub open spec fn clear_in_row(row: Seq<bool>) -> nat
    decreases row.len(),
{
    if row.len() == 0 {
        0
    } else {
        clear_in_row(row.drop_last()) + if row.last() {
            0nat
        } else {
            1nat
        }
    }
}

/// The number of clear entries in a relation: how much room is left for new
/// conflicts.
pub open spec fn clear_entries(rel: Seq<Seq<bool>>) -> nat
    decreases rel.len(),
{
    if rel.len() == 0 {
        0
    } else {
        clear_entries(rel.drop_last()) + clear_in_row(rel.last())
    }
}

/// `more` has every bit set that `fewer` has set.
pub open spec fn row_grown(fewer: Seq<bool>, more: Seq<bool>) -> bool {
    &&& fewer.len() == more.len()
    &&& forall|b: int| 0 <= b < fewer.len() ==> #[trigger] fewer[b] ==> more[b]
}

/// `more` has every conflict that `fewer` has.
pub open spec fn relation_grown(fewer: Seq<Seq<bool>>, more: Seq<Seq<bool>>) -> bool {
    &&& fewer.len() == more.len()
    &&& forall|a: int| 0 <= a < fewer.len() ==> row_grown(#[trigger] fewer[a], more[a])
}

/// A row with more bits set has no more clear bits, and fewer of them if a
/// bit at `at` is newly set.
proof fn lemma_row_fills(fewer: Seq<bool>, more: Seq<bool>, at: int)
    requires
        row_grown(fewer, more),
    ensures
        clear_in_row(more) <= clear_in_row(fewer),
        0 <= at < fewer.len() && !fewer[at] && more[at] ==> clear_in_row(more) < clear_in_row(fewer),
    decreases fewer.len(),
{
    if fewer.len() > 0 {
        assert(row_grown(fewer.drop_last(), more.drop_last())) by {
            assert forall|b: int| 0 <= b < fewer.len() - 1 && #[trigger] fewer.drop_last()[b] implies more.drop_last()[b] by {
                assert(fewer[b] ==> more[b]);
            }
        }
        lemma_row_fills(fewer.drop_last(), more.drop_last(), at);
        assert(fewer[fewer.len() - 1] ==> more[fewer.len() - 1]);
    }
}

/// A relation with more conflicts has no more clear entries, and fewer of
/// them if the entry at row `a`, column `b` is new.
pub(crate) proof fn lemma_relation_fills(fewer: Seq<Seq<bool>>, more: Seq<Seq<bool>>, a: int, b: int)
    requires
        relation_grown(fewer, more),
    ensures
        clear_entries(more) <= clear_entries(fewer),
        0 <= a < fewer.len() && 0 <= b < fewer[a].len() && !fewer[a][b] && more[a][b] ==> clear_entries(more)
            < clear_entries(fewer),
    decreases fewer.len(),
{
    if fewer.len() > 0 {
        let last = fewer.len() - 1;
        assert(relation_grown(fewer.drop_last(), more.drop_last())) by {
            assert forall|r: int| 0 <= r < last implies row_grown(#[trigger] fewer.drop_last()[r], more.drop_last()[r]) by {
                assert(row_grown(fewer[r], more[r]));
            }
        }
        lemma_relation_fills(fewer.drop_last(), more.drop_last(), a, b);
        assert(row_grown(fewer[last], more[last]));
        lemma_row_fills(fewer[last], more[last], b);
    }
}

} // verus!
