//! Filtered views over a source list.
//!
//! A view is a sequence of `(original_index, item)` pairs drawn from a
//! source list. The predicates here say that a view enumerates the source
//! unchanged, or that it holds exactly the items an inclusion test keeps,
//! arranged by a strict order on their original indices. A view of the
//! latter kind is uniquely determined, which is what makes re-filtering
//! with the same query idempotent.

use vstd::prelude::*;

verus! {

/// `view` lists every item of `src` in order, each paired with its index.
pub open spec fn identity_view<T>(src: Seq<T>, view: Seq<(usize, T)>) -> bool {
    &&& view.len() == src.len()
    &&& forall|k: int|
        0 <= k < view.len() ==> (#[trigger] view[k]).0 as int == k && view[k].1 == src[k]
}

/// `view` holds exactly the indices below `n` that `keep` accepts, each
/// paired with its label, arranged so that earlier entries come `before`
/// later ones.
pub open spec fn ordered_view_ok<T>(
    n: int,
    lbl: spec_fn(int) -> T,
    keep: spec_fn(int) -> bool,
    before: spec_fn(int, int) -> bool,
    view: Seq<(usize, T)>,
) -> bool {
    &&& forall|k: int|
        0 <= k < view.len() ==> ({
            let i = (#[trigger] view[k]).0 as int;
            &&& i < n
            &&& view[k].1 == lbl(i)
            &&& keep(i)
        })
    &&& forall|i: int|
        0 <= i < n && #[trigger] keep(i) ==> exists|k: int|
            0 <= k < view.len() && (#[trigger] view[k]).0 as int == i
    &&& forall|k: int, l: int|
        0 <= k < l < view.len() ==> before(
            (#[trigger] view[k]).0 as int,
            (#[trigger] view[l]).0 as int,
        )
}

/// An ordered view carries over to a relabelling of the same indices: if
/// another inclusion test and order agree index-by-index, and a second view
/// pairs the same indices with the new labels, the second view is ordered
/// too.
pub proof fn lemma_ordered_view_relabel<T, U>(
    n: int,
    lbl_a: spec_fn(int) -> T,
    keep_a: spec_fn(int) -> bool,
    before_a: spec_fn(int, int) -> bool,
    va: Seq<(usize, T)>,
    lbl_b: spec_fn(int) -> U,
    keep_b: spec_fn(int) -> bool,
    before_b: spec_fn(int, int) -> bool,
    vb: Seq<(usize, U)>,
)
    requires
        ordered_view_ok(n, lbl_a, keep_a, before_a, va),
        forall|i: int| 0 <= i < n ==> (#[trigger] keep_a(i)) == keep_b(i),
        forall|a: int, b: int|
            0 <= a < n && 0 <= b < n ==> (#[trigger] before_a(a, b)) == before_b(a, b),
        vb.len() == va.len(),
        forall|k: int|
            0 <= k < vb.len() ==> (#[trigger] vb[k]).0 == va[k].0 && vb[k].1 == lbl_b(
                va[k].0 as int,
            ),
    ensures
        ordered_view_ok(n, lbl_b, keep_b, before_b, vb),
{
    assert forall|i: int| 0 <= i < n && #[trigger] keep_b(i) implies exists|k: int|
        0 <= k < vb.len() && (#[trigger] vb[k]).0 as int == i by {
        assert(keep_a(i));
        let k = choose|k: int| 0 <= k < va.len() && (#[trigger] va[k]).0 as int == i;
        assert((vb[k]).0 as int == i);
    }
}

/// A view that satisfies [`ordered_view_ok`] is uniquely determined by the
/// source, the inclusion test and the order: filtering the same source with
/// the same query a second time yields the very same view.
pub proof fn lemma_ordered_view_unique<T>(
    n: int,
    lbl: spec_fn(int) -> T,
    keep: spec_fn(int) -> bool,
    before: spec_fn(int, int) -> bool,
    v1: Seq<(usize, T)>,
    v2: Seq<(usize, T)>,
)
    requires
        forall|a: int, b: int| #[trigger] before(a, b) ==> !before(b, a),
        ordered_view_ok(n, lbl, keep, before, v1),
        ordered_view_ok(n, lbl, keep, before, v2),
    ensures
        v1 =~= v2,
    decreases v1.len(),
{
    if v1.len() == 0 {
        if v2.len() > 0 {
            let i2 = v2[0].0 as int;
            assert(keep(i2));
            assert(false);
        }
    } else if v2.len() == 0 {
        let i1 = v1[0].0 as int;
        assert(keep(i1));
        assert(false);
    } else {
        let i1 = v1[0].0 as int;
        let i2 = v2[0].0 as int;
        let k1 = choose|k: int| 0 <= k < v2.len() && (#[trigger] v2[k]).0 as int == i1;
        let k2 = choose|k: int| 0 <= k < v1.len() && (#[trigger] v1[k]).0 as int == i2;
        if k1 > 0 && k2 > 0 {
            assert(before(i2, i1));
            assert(before(i1, i2));
            assert(false);
        }
        assert(v1[0] == v2[0]);
        let t1 = v1.drop_first();
        let t2 = v2.drop_first();
        let keep2 = |i: int| keep(i) && i != i1;
        assert forall|a: int| 0 < a < v1.len() implies (#[trigger] v1[a]).0 as int != i1 by {
            if v1[a].0 as int == i1 {
                assert(before(i1, i1));
            }
        }
        assert forall|a: int| 0 < a < v2.len() implies (#[trigger] v2[a]).0 as int != i1 by {
            if v2[a].0 as int == i1 {
                assert(before(v2[0].0 as int, i1));
            }
        }
        assert(ordered_view_ok(n, lbl, keep2, before, t1)) by {
            assert forall|i: int| 0 <= i < n && #[trigger] keep2(i) implies exists|k: int|
                0 <= k < t1.len() && (#[trigger] t1[k]).0 as int == i by {
                let k = choose|k: int| 0 <= k < v1.len() && (#[trigger] v1[k]).0 as int == i;
                assert(k > 0);
                assert((t1[k - 1]).0 as int == i);
            }
        }
        assert(ordered_view_ok(n, lbl, keep2, before, t2)) by {
            assert forall|i: int| 0 <= i < n && #[trigger] keep2(i) implies exists|k: int|
                0 <= k < t2.len() && (#[trigger] t2[k]).0 as int == i by {
                let k = choose|k: int| 0 <= k < v2.len() && (#[trigger] v2[k]).0 as int == i;
                assert(k > 0);
                assert((t2[k - 1]).0 as int == i);
            }
        }
        lemma_ordered_view_unique(n, lbl, keep2, before, t1, t2);
        assert forall|j: int| 0 <= j < v1.len() implies v1[j] == v2[j] by {
            if j > 0 {
                assert(v1[j] == t1[j - 1]);
                assert(t1[j - 1] == t2[j - 1]);
            }
        }
    }
}

} // verus!
