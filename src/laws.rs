//! Properties of the region index, stated over the brute-force answer
//! `is_active` and proved.
use vstd::prelude::*;
use crate::edit::Cut;
use crate::index::{
    CutRef, RegionModel, changes_at, cut_of, indexes, is_active, lists_active, names_cut,
    ref_less, region_holds, region_ok, refs_ascending, some_active,
};

verus! {

/// Two sequences, each strictly ascending for an asymmetric relation `less`,
/// that hold the same elements are equal.
proof fn lemma_strictly_sorted_unique<A>(a: Seq<A>, b: Seq<A>, less: spec_fn(A, A) -> bool)
    requires
        forall|x: A, y: A| #[trigger] less(x, y) ==> !less(y, x),
        forall|i: int, j: int| 0 <= i < j < a.len() ==> less(#[trigger] a[i], #[trigger] a[j]),
        forall|i: int, j: int| 0 <= i < j < b.len() ==> less(#[trigger] b[i], #[trigger] b[j]),
        forall|x: A| #[trigger] a.contains(x) <==> b.contains(x),
    ensures
        a == b,
    decreases a.len(),
{
    if a.len() == 0 {
        if b.len() > 0 {
            assert(b.contains(b[0]));
            assert(a.contains(b[0]));
        }
        assert(a =~= b);
    } else if b.len() == 0 {
        assert(a.contains(a[0]));
        assert(b.contains(a[0]));
    } else {
        assert(a.contains(a[0]));
        assert(b.contains(b[0]));
        assert(a.contains(b[0]));
        assert(b.contains(a[0]));
        let j = choose|j: int| 0 <= j < b.len() && b[j] == a[0];
        let i = choose|i: int| 0 <= i < a.len() && a[i] == b[0];
        if j > 0 {
            assert(less(b[0], b[j]));
            if i > 0 {
                assert(less(a[0], a[i]));
            }
        }
        assert(a[0] == b[0]);
        let ta = a.drop_first();
        let tb = b.drop_first();
        assert forall|x: A| #[trigger] ta.contains(x) <==> tb.contains(x) by {
            if ta.contains(x) {
                let k = choose|k: int| 0 <= k < ta.len() && ta[k] == x;
                assert(less(a[0], a[k + 1]));
                assert(a.contains(x));
                assert(b.contains(x));
                let m = choose|m: int| 0 <= m < b.len() && b[m] == x;
                if m == 0 {
                    assert(x == a[0]);
                    assert(less(x, x));
                }
                assert(tb[m - 1] == x);
            }
            if tb.contains(x) {
                let k = choose|k: int| 0 <= k < tb.len() && tb[k] == x;
                assert(less(b[0], b[k + 1]));
                assert(b.contains(x));
                assert(a.contains(x));
                let m = choose|m: int| 0 <= m < a.len() && a[m] == x;
                if m == 0 {
                    assert(x == b[0]);
                    assert(less(x, x));
                }
                assert(ta[m - 1] == x);
            }
        }
        assert forall|p: int, q: int| 0 <= p < q < ta.len() implies less(#[trigger] ta[p], #[trigger] ta[q]) by {
            assert(ta[p] == a[p + 1] && ta[q] == a[q + 1]);
        }
        assert forall|p: int, q: int| 0 <= p < q < tb.len() implies less(#[trigger] tb[p], #[trigger] tb[q]) by {
            assert(tb[p] == b[p + 1] && tb[q] == b[q + 1]);
        }
        lemma_strictly_sorted_unique(ta, tb, less);
        assert(a =~= seq![a[0]] + ta);
        assert(b =~= seq![b[0]] + tb);
    }
}

/// A region that holds two adjacent instants lists the same cuts at both, so
/// the active set does not change between them.
proof fn lemma_no_change_inside(tracks: Seq<Seq<Cut>>, g: RegionModel, u: int)
    requires
        region_ok(tracks, g),
        g.0 <= u - 1,
        u < g.1,
    ensures
        !changes_at(tracks, u),
{
    assert(lists_active(tracks, g.2, u - 1));
    assert(lists_active(tracks, g.2, u));
    if changes_at(tracks, u) {
        let r = choose|r: CutRef| is_active(tracks, r, u - 1) != #[trigger] is_active(tracks, r, u);
        assert(g.2.contains(r) == is_active(tracks, r, u - 1));
    }
}

/// Every region of one index of `tracks` is a region of any other.
proof fn lemma_region_shared(tracks: Seq<Seq<Cut>>, a: Seq<RegionModel>, b: Seq<RegionModel>, i: int)
    requires
        indexes(tracks, a),
        indexes(tracks, b),
        0 <= i < a.len(),
    ensures
        b.contains(a[i]),
{
    let g = a[i];
    assert(region_ok(tracks, g));
    let t0 = g.0 as int;
    assert(lists_active(tracks, g.2, t0));
    assert(g.2.contains(g.2[0]));
    assert(is_active(tracks, g.2[0], t0));
    assert(some_active(tracks, t0));
    let j = choose|j: int| region_holds(b, j, t0);
    let h = b[j];
    assert(region_ok(tracks, h));
    if h.0 < g.0 {
        lemma_no_change_inside(tracks, h, t0);
    }
    if g.1 < h.1 {
        lemma_no_change_inside(tracks, h, g.1 as int);
    }
    if h.1 < g.1 {
        lemma_no_change_inside(tracks, g, h.1 as int);
    }
    assert(lists_active(tracks, h.2, t0));
    let lt = |x: CutRef, y: CutRef| ref_less(x, y);
    assert forall|p: int, q: int| 0 <= p < q < g.2.len() implies lt(#[trigger] g.2[p], #[trigger] g.2[q]) by {
        assert(refs_ascending(g.2));
    }
    assert forall|p: int, q: int| 0 <= p < q < h.2.len() implies lt(#[trigger] h.2[p], #[trigger] h.2[q]) by {
        assert(refs_ascending(h.2));
    }
    assert forall|x: CutRef| #[trigger] g.2.contains(x) <==> h.2.contains(x) by {
        assert(g.2.contains(x) <==> is_active(tracks, x, t0));
        assert(h.2.contains(x) <==> is_active(tracks, x, t0));
    }
    lemma_strictly_sorted_unique(g.2, h.2, lt);
    assert(h == g);
}

/// The region index of a set of tracks is unique: two sequences that both
/// index the same tracks are equal. So building the index twice from the
/// same tracks yields the same sequence of regions.
pub proof fn lemma_index_unique(tracks: Seq<Seq<Cut>>, a: Seq<RegionModel>, b: Seq<RegionModel>)
    requires
        indexes(tracks, a),
        indexes(tracks, b),
    ensures
        a == b,
{
    let lt = |x: RegionModel, y: RegionModel| x.0 < y.0;
    assert forall|p: int, q: int| 0 <= p < q < a.len() implies lt(#[trigger] a[p], #[trigger] a[q]) by {
        assert(region_ok(tracks, a[p]));
    }
    assert forall|p: int, q: int| 0 <= p < q < b.len() implies lt(#[trigger] b[p], #[trigger] b[q]) by {
        assert(region_ok(tracks, b[p]));
    }
    assert forall|x: RegionModel| #[trigger] a.contains(x) <==> b.contains(x) by {
        if a.contains(x) {
            let i = choose|i: int| 0 <= i < a.len() && a[i] == x;
            lemma_region_shared(tracks, a, b, i);
        }
        if b.contains(x) {
            let i = choose|i: int| 0 <= i < b.len() && b[i] == x;
            lemma_region_shared(tracks, b, a, i);
        }
    }
    lemma_strictly_sorted_unique(a, b, lt);
}

/// Looking `t` up in the regions gives the brute-force answer: a cut is in
/// the region that holds `t` exactly when its window holds `t`, and when no
/// region holds `t` no cut is active.
pub proof fn lemma_lookup_matches_scan(tracks: Seq<Seq<Cut>>, rs: Seq<RegionModel>, t: int)
    requires
        indexes(tracks, rs),
    ensures
        forall|i: int| region_holds(rs, i, t) ==> lists_active(tracks, #[trigger] rs[i].2, t),
        (forall|i: int| !region_holds(rs, i, t)) ==> forall|r: CutRef| !is_active(tracks, r, t),
{
    assert forall|i: int| region_holds(rs, i, t) implies lists_active(tracks, #[trigger] rs[i].2, t) by {
        assert(region_ok(tracks, rs[i]));
    }
    if forall|i: int| !region_holds(rs, i, t) {
        assert forall|r: CutRef| !is_active(tracks, r, t) by {
            if is_active(tracks, r, t) {
                assert(some_active(tracks, t));
            }
        }
    }
}

/// The regions ascend in time, do not overlap, are non-empty in time, and
/// each has a non-empty, ascending set of active cuts.
pub proof fn lemma_regions_shape(tracks: Seq<Seq<Cut>>, rs: Seq<RegionModel>)
    requires
        indexes(tracks, rs),
    ensures
        forall|i: int| 0 <= i < rs.len() ==> (#[trigger] rs[i]).0 < rs[i].1 && rs[i].2.len() > 0 && refs_ascending(rs[i].2),
        forall|i: int, j: int| 0 <= i < j < rs.len() ==> (#[trigger] rs[i]).1 <= (#[trigger] rs[j]).0,
{
    assert forall|i: int| 0 <= i < rs.len() implies (#[trigger] rs[i]).0 < rs[i].1 && rs[i].2.len() > 0 && refs_ascending(rs[i].2) by {
        assert(region_ok(tracks, rs[i]));
        assert(lists_active(tracks, rs[i].2, rs[i].0 as int));
    }
}

/// A cut whose input and output times are equal is never active, and no
/// region lists it.
pub proof fn lemma_empty_cut_absent(tracks: Seq<Seq<Cut>>, rs: Seq<RegionModel>, r: CutRef)
    requires
        indexes(tracks, rs),
        names_cut(tracks, r),
        cut_of(tracks, r).in_time == cut_of(tracks, r).out_time,
    ensures
        forall|t: int| !is_active(tracks, r, t),
        forall|i: int| 0 <= i < rs.len() ==> !(#[trigger] rs[i]).2.contains(r),
{
    assert forall|i: int| 0 <= i < rs.len() implies !(#[trigger] rs[i]).2.contains(r) by {
        assert(region_ok(tracks, rs[i]));
        assert(lists_active(tracks, rs[i].2, rs[i].0 as int));
    }
}

} // verus!
