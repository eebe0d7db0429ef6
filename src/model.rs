//! Turning the primitives of a mesh into an indexed vertex list: each
//! distinct (position, normal, texture) triple becomes one vertex, and each
//! corner of a primitive becomes an index into those vertices.
use vstd::prelude::*;

verus! {

/// Indices of one corner of a primitive: position, texture coordinate,
/// normal; the last two may be absent.
pub type VTNIndex = (usize, Option<usize>, Option<usize>);

/// Indices of a complete vertex: position, normal, texture coordinate.
pub type VertexKey = (usize, usize, usize);

/// A primitive of a mesh, by its corners.
#[derive(Clone, Copy, Debug, PartialEq, Eq)]
pub enum Primitive {
    Point(VTNIndex),
    Line(VTNIndex, VTNIndex),
    Triangle(VTNIndex, VTNIndex, VTNIndex),
}

/// A corner lacks its normal or its texture coordinate.
#[derive(Clone, Copy, Debug, PartialEq, Eq, Structural)]
pub struct UnsupportedVertex;

/// The vertex key of a corner, when the corner is complete.
pub open spec fn key_of(i: VTNIndex) -> Option<VertexKey> {
    match i {
        (p, Some(t), Some(n)) => Some((p, n, t)),
        _ => None,
    }
}

/// The vertex keys of a primitive's corners, in order, when all are complete.
pub open spec fn prim_keys(p: Primitive) -> Option<Seq<VertexKey>> {
    match p {
        Primitive::Point(a) => if key_of(a) is Some {
            Some(seq![key_of(a).unwrap()])
        } else {
            None
        },
        Primitive::Line(a, b) => if key_of(a) is Some && key_of(b) is Some {
            Some(seq![key_of(a).unwrap(), key_of(b).unwrap()])
        } else {
            None
        },
        Primitive::Triangle(a, b, c) => if key_of(a) is Some && key_of(b) is Some && key_of(c) is Some {
            Some(seq![key_of(a).unwrap(), key_of(b).unwrap(), key_of(c).unwrap()])
        } else {
            None
        },
    }
}

/// The vertex keys of all corners of all primitives, in order, when every
/// corner is complete.
pub open spec fn keys_of(ps: Seq<Primitive>) -> Option<Seq<VertexKey>>
    decreases ps.len(),
{
    if ps.len() == 0 {
        Some(Seq::empty())
    } else {
        match (keys_of(ps.drop_last()), prim_keys(ps.last())) {
            (Some(a), Some(b)) => Some(a + b),
            _ => None,
        }
    }
}

/// The distinct keys of `ks`, in order of first appearance.
pub open spec fn first_seen(ks: Seq<VertexKey>) -> Seq<VertexKey>
    decreases ks.len(),
{
    if ks.len() == 0 {
        Seq::empty()
    } else {
        let p = first_seen(ks.drop_last());
        if p.contains(ks.last()) {
            p
        } else {
            p.push(ks.last())
        }
    }
}

/// Converts one corner into a vertex key.
pub fn vtnindex_to_key(i: VTNIndex) -> (r: Result<VertexKey, UnsupportedVertex>)
    ensures
        match r {
            Ok(k) => key_of(i) == Some(k),
            Err(_) => key_of(i) is None,
        },
{
    match i {
        (pi, Some(ti), Some(ni)) => Ok((pi, ni, ti)),
        _ => Err(UnsupportedVertex),
    }
}

/// The vertex keys of a primitive's corners, in order.
pub fn create_keys_from_primitive(prim: Primitive) -> (r: Result<Vec<VertexKey>, UnsupportedVertex>)
    ensures
        match r {
            Ok(v) => prim_keys(prim) == Some(v@),
            Err(_) => prim_keys(prim) is None,
        },
{
    match prim {
        Primitive::Point(i) => {
            let a = vtnindex_to_key(i)?;
            let v = vec![a];
            assert(v@ =~= seq![a]);
            Ok(v)
        },
        Primitive::Line(i, j) => {
            let a = vtnindex_to_key(i)?;
            let b = vtnindex_to_key(j)?;
            let v = vec![a, b];
            assert(v@ =~= seq![a, b]);
            Ok(v)
        },
        Primitive::Triangle(i, j, k) => {
            let a = vtnindex_to_key(i)?;
            let b = vtnindex_to_key(j)?;
            let c = vtnindex_to_key(k)?;
            let v = vec![a, b, c];
            assert(v@ =~= seq![a, b, c]);
            Ok(v)
        },
    }
}

/// The vertex keys of all corners of all primitives, in order.
fn all_keys(prims: &Vec<Primitive>) -> (r: Result<Vec<VertexKey>, UnsupportedVertex>)
    ensures
        match r {
            Ok(v) => keys_of(prims@) == Some(v@),
            Err(_) => keys_of(prims@) is None,
        },
{
    let mut keys: Vec<VertexKey> = Vec::new();
    let mut p: usize = 0;
    while p < prims.len()
        invariant
            p <= prims@.len(),
            keys_of(prims@.subrange(0, p as int)) == Some(keys@),
        decreases prims@.len() - p,
    {
        let ghost sub = prims@.subrange(0, p + 1);
        assert(sub.drop_last() =~= prims@.subrange(0, p as int));
        assert(sub.last() == prims@[p as int]);
        match create_keys_from_primitive(prims[p]) {
            Ok(v) => {
                let ghost pre = keys@;
                let mut q: usize = 0;
                while q < v.len()
                    invariant
                        q <= v@.len(),
                        keys@ == pre + v@.subrange(0, q as int),
                    decreases v@.len() - q,
                {
                    keys.push(v[q]);
                    q += 1;
                    assert(keys@ =~= pre + v@.subrange(0, q as int));
                }
                assert(v@.subrange(0, v@.len() as int) =~= v@);
            },
            Err(e) => {
                proof {
                    lemma_keys_of_none_grows(prims@, p as int + 1);
                }
                return Err(e);
            },
        }
        p += 1;
    }
    assert(prims@.subrange(0, p as int) =~= prims@);
    Ok(keys)
}

/// Once a prefix holds an incomplete corner, so does the whole sequence.
proof fn lemma_keys_of_none_grows(ps: Seq<Primitive>, i: int)
    requires
        0 <= i <= ps.len(),
        keys_of(ps.subrange(0, i)) is None,
    ensures
        keys_of(ps) is None,
    decreases ps.len() - i,
{
    if i < ps.len() {
        let sub = ps.subrange(0, i + 1);
        assert(sub.drop_last() =~= ps.subrange(0, i));
        lemma_keys_of_none_grows(ps, i + 1);
    } else {
        assert(ps.subrange(0, i) =~= ps);
    }
}

/// Distinct vertex keys in order of first appearance, and for each corner of
/// each primitive the position of its key among them; fails when a corner
/// lacks its normal or its texture coordinate.
pub fn index_geometry(prims: &Vec<Primitive>) -> (r: Result<(Vec<VertexKey>, Vec<u32>), UnsupportedVertex>)
    requires
        3 * prims@.len() <= u32::MAX,
    ensures
        match r {
            Ok((vs, ix)) => keys_of(prims@) matches Some(ks) && vs@ == first_seen(ks) && vs@.no_duplicates() && ix@.len() == ks.len()
                && forall|m: int| 0 <= m < ix@.len() ==> (#[trigger] ix@[m]) < vs@.len() && vs@[ix@[m] as int] == ks[m],
            Err(_) => keys_of(prims@) is None,
        },
{
    let keys = all_keys(prims)?;
    proof {
        lemma_keys_len(prims@);
    }
    let mut vs: Vec<VertexKey> = Vec::new();
    let mut ix: Vec<u32> = Vec::new();
    let mut m: usize = 0;
    while m < keys.len()
        invariant
            keys@.len() <= u32::MAX,
            m <= keys@.len(),
            vs@ == first_seen(keys@.subrange(0, m as int)),
            vs@.len() <= m,
            vs@.no_duplicates(),
            ix@.len() == m,
            forall|q: int| 0 <= q < m ==> (#[trigger] ix@[q]) < vs@.len() && vs@[ix@[q] as int] == keys@[q],
        decreases keys@.len() - m,
    {
        let k = keys[m];
        let ghost sub = keys@.subrange(0, m + 1);
        assert(sub.drop_last() =~= keys@.subrange(0, m as int));
        assert(sub.last() == k);
        let mut j: usize = 0;
        while j < vs.len() && !(vs[j].0 == k.0 && vs[j].1 == k.1 && vs[j].2 == k.2)
            invariant
                j <= vs@.len(),
                forall|q: int| 0 <= q < j ==> vs@[q] != k,
            decreases vs@.len() - j,
        {
            j += 1;
        }
        if j < vs.len() {
            assert(vs@.contains(k));
            ix.push(j as u32);
        } else {
            assert(!vs@.contains(k));
            let ghost pre = vs@;
            ix.push(vs.len() as u32);
            vs.push(k);
            assert(vs@[pre.len() as int] == k);
            assert forall|q: int| 0 <= q < m implies (#[trigger] ix@[q]) < vs@.len() && vs@[ix@[q] as int] == keys@[q] by {
                assert(vs@[ix@[q] as int] == pre[ix@[q] as int]);
            }
        }
        m += 1;
    }
    assert(keys@.subrange(0, m as int) =~= keys@);
    Ok((vs, ix))
}

/// A primitive has at most three corners.
proof fn lemma_keys_len(ps: Seq<Primitive>)
    ensures
        keys_of(ps) matches Some(ks) ==> ks.len() <= 3 * ps.len(),
    decreases ps.len(),
{
    if ps.len() > 0 {
        lemma_keys_len(ps.drop_last());
    }
}

} // verus!
