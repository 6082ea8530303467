//! Ordered listings: what it means for a sequence to enumerate a family of
//! values, each exactly once, in a fixed order.
//!
//! Every enumerator in this crate returns such a listing. The order is the
//! dictionary order, which is the order in which a depth-first search over
//! ascending choices meets its results.

use vstd::prelude::*;

verus! {

/// `out` holds exactly the values that satisfy `member`, each of them once,
/// and every entry comes `before` all entries after it.
pub open spec fn lists<T>(out: Seq<T>, member: spec_fn(T) -> bool, before: spec_fn(T, T) -> bool) -> bool {
    &&& forall|i: int| 0 <= i < out.len() ==> #[trigger] member(out[i])
    &&& forall|x: T| #[trigger] member(x) ==> out.contains(x)
    &&& forall|i: int, j: int| 0 <= i < j < out.len() ==> #[trigger] before(out[i], out[j])
}

/// Dictionary order: `a` and `b` agree up to some position, at which the
/// entry of `a` comes `before` that of `b`.
pub open spec fn lex_before<T>(a: Seq<T>, b: Seq<T>, before: spec_fn(T, T) -> bool) -> bool {
    exists|p: int|
        0 <= p < a.len() && p < b.len() && #[trigger] a.take(p) == b.take(p) && before(a[p], b[p])
}

/// A family without members is listed by the empty sequence.
pub proof fn lemma_lists_nothing<T>(member: spec_fn(T) -> bool, before: spec_fn(T, T) -> bool)
    requires
        forall|x: T| !#[trigger] member(x),
    ensures
        lists(Seq::<T>::empty(), member, before),
{
}

/// A family with one member is listed by that member alone.
pub proof fn lemma_lists_one<T>(only: T, member: spec_fn(T) -> bool, before: spec_fn(T, T) -> bool)
    requires
        member(only),
        forall|x: T| #[trigger] member(x) ==> x == only,
    ensures
        lists(seq![only], member, before),
{
    assert(seq![only][0] == only);
}

/// A listing of one family is a listing of any family with the same
/// members.
pub proof fn lemma_lists_same<T>(
    out: Seq<T>,
    member: spec_fn(T) -> bool,
    other: spec_fn(T) -> bool,
    before: spec_fn(T, T) -> bool,
)
    requires
        lists(out, member, before),
        forall|x: T| #[trigger] member(x) ==> other(x),
        forall|x: T| #[trigger] other(x) ==> member(x),
    ensures
        lists(out, other, before),
{
    assert forall|i: int| 0 <= i < out.len() implies #[trigger] other(out[i]) by {
        assert(member(out[i]));
    }
    assert forall|x: T| #[trigger] other(x) implies out.contains(x) by {
        assert(member(x));
    }
}

/// Two listings, of which every member of the first comes before every
/// member of the second, join into a listing of both families together.
pub proof fn lemma_lists_joined<T>(
    first: Seq<T>,
    second: Seq<T>,
    in_first: spec_fn(T) -> bool,
    in_second: spec_fn(T) -> bool,
    member: spec_fn(T) -> bool,
    before: spec_fn(T, T) -> bool,
)
    requires
        lists(first, in_first, before),
        lists(second, in_second, before),
        forall|x: T, y: T| #[trigger] in_first(x) && #[trigger] in_second(y) ==> before(x, y),
        forall|x: T| #[trigger] member(x) ==> in_first(x) || in_second(x),
        forall|x: T| #[trigger] in_first(x) ==> member(x),
        forall|x: T| #[trigger] in_second(x) ==> member(x),
    ensures
        lists(first + second, member, before),
{
    let out = first + second;
    assert forall|i: int| 0 <= i < out.len() implies #[trigger] member(out[i]) by {
        if i < first.len() {
            assert(in_first(first[i]));
        } else {
            assert(in_second(second[i - first.len()]));
        }
    }
    assert forall|x: T| #[trigger] member(x) implies out.contains(x) by {
        if in_first(x) {
            let i = choose|i: int| 0 <= i < first.len() && first[i] == x;
            assert(out[i] == x);
        } else {
            assert(in_second(x));
            let i = choose|i: int| 0 <= i < second.len() && second[i] == x;
            assert(out[first.len() + i] == x);
        }
    }
    assert forall|i: int, j: int| 0 <= i < j < out.len() implies #[trigger] before(out[i], out[j]) by {
        if j < first.len() {
            assert(before(first[i], first[j]));
        } else if i >= first.len() {
            assert(before(second[i - first.len()], second[j - first.len()]));
        } else {
            assert(in_first(first[i]));
            assert(in_second(second[j - first.len()]));
        }
    }
}

/// `before` is a strict order: nothing comes before itself, and what comes
/// before something that comes before a third thing comes before that too.
pub open spec fn is_strict<T>(before: spec_fn(T, T) -> bool) -> bool {
    &&& forall|x: T| !#[trigger] before(x, x)
    &&& forall|x: T, y: T, z: T| #[trigger] before(x, y) && #[trigger] before(y, z) ==> before(x, z)
}

/// The dictionary order over a strict order is a strict order.
pub proof fn lemma_lex_strict<T>(before: spec_fn(T, T) -> bool, lifted: spec_fn(Seq<T>, Seq<T>) -> bool)
    requires
        is_strict(before),
        forall|a: Seq<T>, b: Seq<T>| #[trigger] lifted(a, b) <==> lex_before(a, b, before),
    ensures
        is_strict(lifted),
{
    assert forall|a: Seq<T>| !#[trigger] lifted(a, a) by {
        if lex_before(a, a, before) {
            let p = choose|p: int|
                0 <= p < a.len() && p < a.len() && #[trigger] a.take(p) == a.take(p) && before(a[p], a[p]);
            assert(!before(a[p], a[p]));
        }
    }
    assert forall|a: Seq<T>, b: Seq<T>, c: Seq<T>| #[trigger] lifted(a, b) && #[trigger] lifted(b, c) implies lifted(
        a,
        c,
    ) by {
        let p = choose|p: int|
            0 <= p < a.len() && p < b.len() && #[trigger] a.take(p) == b.take(p) && before(a[p], b[p]);
        let q = choose|q: int|
            0 <= q < b.len() && q < c.len() && #[trigger] b.take(q) == c.take(q) && before(b[q], c[q]);
        if p < q {
            assert(b.take(q)[p] == c.take(q)[p]);
            assert(a.take(p) =~= c.take(p)) by {
                assert forall|i: int| 0 <= i < p implies a.take(p)[i] == c.take(p)[i] by {
                    assert(a.take(p)[i] == b.take(p)[i]);
                    assert(b.take(q)[i] == c.take(q)[i]);
                }
            }
            assert(before(a[p], c[p]));
        } else if q < p {
            assert(a.take(p)[q] == b.take(p)[q]);
            assert(a.take(q) =~= c.take(q)) by {
                assert forall|i: int| 0 <= i < q implies a.take(q)[i] == c.take(q)[i] by {
                    assert(a.take(p)[i] == b.take(p)[i]);
                    assert(b.take(q)[i] == c.take(q)[i]);
                }
            }
            assert(before(a[q], c[q]));
        } else {
            assert(before(a[p], b[p]) && before(b[p], c[p]));
            assert(a.take(p) == c.take(p));
            assert(before(a[p], c[p]));
        }
        assert(lex_before(a, c, before));
    }
}

/// A family has at most one listing in a strict order: what a listing holds
/// and in which order is settled by the family and the order alone.
pub proof fn lemma_one_listing<T>(
    out: Seq<T>,
    other: Seq<T>,
    member: spec_fn(T) -> bool,
    before: spec_fn(T, T) -> bool,
)
    requires
        is_strict(before),
        lists(out, member, before),
        lists(other, member, before),
    ensures
        out == other,
    decreases out.len(),
{
    if out.len() == 0 {
        if other.len() > 0 {
            assert(member(other[0]));
            assert(out.contains(other[0]));
        }
        assert(out =~= other);
    } else {
        let first = out[0];
        assert(member(first));
        assert(other.contains(first));
        let k = choose|k: int| 0 <= k < other.len() && other[k] == first;
        if k > 0 {
            let least = other[0];
            assert(before(least, first));
            assert(member(least));
            assert(out.contains(least));
            let j = choose|j: int| 0 <= j < out.len() && out[j] == least;
            if j > 0 {
                assert(before(out[0], out[j]));
                assert(before(first, least) && before(least, first));
            }
            assert(before(first, first));
            assert(false);
        }
        assert(other[0] == first);
        let rest = |x: T| member(x) && x != first;
        assert(lists(out.skip(1), rest, before)) by {
            assert forall|i: int| 0 <= i < out.skip(1).len() implies #[trigger] rest(out.skip(1)[i]) by {
                assert(member(out[i + 1]));
                assert(before(out[0], out[i + 1]));
            }
            assert forall|x: T| #[trigger] rest(x) implies out.skip(1).contains(x) by {
                assert(member(x));
                let i = choose|i: int| 0 <= i < out.len() && out[i] == x;
                assert(i > 0);
                assert(out.skip(1)[i - 1] == x);
            }
            assert forall|i: int, j: int| 0 <= i < j < out.skip(1).len() implies #[trigger] before(
                out.skip(1)[i],
                out.skip(1)[j],
            ) by {
                assert(before(out[i + 1], out[j + 1]));
            }
        }
        assert(lists(other.skip(1), rest, before)) by {
            assert forall|i: int| 0 <= i < other.skip(1).len() implies #[trigger] rest(other.skip(1)[i]) by {
                assert(member(other[i + 1]));
                assert(before(other[0], other[i + 1]));
            }
            assert forall|x: T| #[trigger] rest(x) implies other.skip(1).contains(x) by {
                assert(member(x));
                let i = choose|i: int| 0 <= i < other.len() && other[i] == x;
                assert(i > 0);
                assert(other.skip(1)[i - 1] == x);
            }
            assert forall|i: int, j: int| 0 <= i < j < other.skip(1).len() implies #[trigger] before(
                other.skip(1)[i],
                other.skip(1)[j],
            ) by {
                assert(before(other[i + 1], other[j + 1]));
            }
        }
        lemma_one_listing(out.skip(1), other.skip(1), rest, before);
        assert(out =~= other) by {
            let tail = out.skip(1);
            assert(tail == other.skip(1));
            assert(tail.len() == out.len() - 1 && tail.len() == other.len() - 1);
            assert forall|i: int| 0 <= i < out.len() implies out[i] == other[i] by {
                if i > 0 {
                    assert(tail[i - 1] == out[i]);
                    assert(other.skip(1)[i - 1] == other[i]);
                }
            }
        }
    }
}

} // verus!
