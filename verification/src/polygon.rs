use vstd::prelude::*;

verus! {

/// A lattice point on the grid, written (x, y).
#[derive(PartialEq, Eq, Structural, Hash, Debug, Copy, Clone)]
pub struct Point(pub usize, pub usize);

/// Strict lexicographic order on points: first by x, then by y.
pub open spec fn point_lt(a: Point, b: Point) -> bool {
    a.0 < b.0 || (a.0 == b.0 && a.1 < b.1)
}

/// A strictly increasing (hence duplicate-free) sequence of points.
pub open spec fn strictly_sorted(s: Seq<Point>) -> bool {
    forall|i: int, j: int| 0 <= i < j < s.len() ==> point_lt(#[trigger] s[i], #[trigger] s[j])
}

/// A strictly increasing sequence of columns.
pub open spec fn strictly_increasing(s: Seq<usize>) -> bool {
    forall|i: int, j: int| 0 <= i < j < s.len() ==> (#[trigger] s[i]) < (#[trigger] s[j])
}

pub open spec fn lo(a: usize, b: usize) -> usize {
    if a <= b { a } else { b }
}

pub open spec fn hi(a: usize, b: usize) -> usize {
    if a <= b { b } else { a }
}

/// The two endpoints lie on a common horizontal or vertical line.
pub open spec fn aligned(a: Point, b: Point) -> bool {
    a.0 == b.0 || a.1 == b.1
}

/// `p` is a lattice point of the axis-aligned segment from `a` to `b`
/// (both endpoints included).  Vertical segments are handled first, so a
/// degenerate segment (a == b) falls under the vertical case.
pub open spec fn on_segment(a: Point, b: Point, p: Point) -> bool {
    if a.0 == b.0 {
        p.0 == a.0 && lo(a.1, b.1) <= p.1 <= hi(a.1, b.1)
    } else {
        p.1 == a.1 && lo(a.0, b.0) <= p.0 <= hi(a.0, b.0)
    }
}

/// The lattice points of the segment from `a` to `b`, in increasing order.
pub open spec fn segment_seq(a: Point, b: Point) -> Seq<Point>
    recommends
        aligned(a, b),
{
    if a.0 == b.0 {
        Seq::new((hi(a.1, b.1) - lo(a.1, b.1) + 1) as nat, |k: int| Point(a.0, (lo(a.1, b.1) + k) as usize))
    } else {
        Seq::new((hi(a.0, b.0) - lo(a.0, b.0) + 1) as nat, |k: int| Point((lo(a.0, b.0) + k) as usize, a.1))
    }
}

pub proof fn lemma_segment_seq_contains(a: Point, b: Point, p: Point)
    requires
        aligned(a, b),
    ensures
        segment_seq(a, b).contains(p) <==> on_segment(a, b, p),
{
    if a.0 == b.0 {
        if on_segment(a, b, p) {
            let k = p.1 - lo(a.1, b.1);
            assert(segment_seq(a, b)[k] == p);
        }
    } else {
        if on_segment(a, b, p) {
            let k = p.0 - lo(a.0, b.0);
            assert(segment_seq(a, b)[k] == p);
        }
    }
}

/// Compares two points in the strict lexicographic order.
pub fn point_lt_exec(a: &Point, b: &Point) -> (r: bool)
    ensures
        r == point_lt(*a, *b),
{
    a.0 < b.0 || (a.0 == b.0 && a.1 < b.1)
}

/// Inserts `p` into a strictly sorted vector, keeping it strictly sorted;
/// a point already present is left alone.
pub fn insert_sorted(v: &mut Vec<Point>, p: Point)
    requires
        strictly_sorted(old(v)@),
    ensures
        strictly_sorted(final(v)@),
        forall|q: Point| final(v)@.contains(q) <==> (old(v)@.contains(q) || q == p),
{
    let ghost orig = v@;
    let mut i: usize = 0;
    while i < v.len() && point_lt_exec(&v[i], &p)
        invariant
            v@ == orig,
            strictly_sorted(v@),
            i <= v@.len(),
            forall|k: int| 0 <= k < i ==> point_lt(v@[k], p),
        decreases v@.len() - i,
    {
        i += 1;
    }
    if i < v.len() && v[i] == p {
        assert(v@.contains(p)) by {
            assert(v@[i as int] == p);
        }
        return;
    }
    assert forall|k: int| i <= k < v@.len() implies point_lt(p, v@[k]) by {
        if k > i {
            assert(point_lt(v@[i as int], v@[k]));
        }
    }
    v.insert(i, p);
    proof {
        orig.insert_ensures(i as int, p);
    }
    assert(strictly_sorted(v@)) by {
        assert forall|a: int, b: int| 0 <= a < b < v@.len() implies point_lt(
            #[trigger] v@[a],
            #[trigger] v@[b],
        ) by {
            if a < i && b < i {
                assert(v@[a] == orig[a] && v@[b] == orig[b]);
            } else if a < i && b == i {
                assert(v@[a] == orig[a] && v@[b] == p);
            } else if a < i && b > i {
                assert(v@[a] == orig[a] && v@[b] == orig[b - 1]);
                if a < b - 1 {
                    assert(point_lt(orig[a], orig[b - 1]));
                }
            } else if a == i {
                assert(v@[a] == p && v@[b] == orig[b - 1]);
            } else {
                assert(v@[a] == orig[a - 1] && v@[b] == orig[b - 1]);
            }
        }
    }
    assert forall|q: Point| v@.contains(q) implies (orig.contains(q) || q == p) by {
        let k = choose|k: int| 0 <= k < v@.len() && v@[k] == q;
        if k < i {
            assert(orig[k] == q);
        } else if k > i {
            assert(orig[k - 1] == q);
        }
    }
    assert forall|q: Point| (orig.contains(q) || q == p) implies v@.contains(q) by {
        if q == p {
            assert(v@[i as int] == q);
        } else {
            let k = choose|k: int| 0 <= k < orig.len() && orig[k] == q;
            if k < i {
                assert(v@[k] == q);
            } else {
                assert(v@[k + 1] == q);
            }
        }
    }
}

/// Binary search for `p` in a strictly sorted vector.
pub fn contains_point(v: &Vec<Point>, p: &Point) -> (r: bool)
    requires
        strictly_sorted(v@),
    ensures
        r == v@.contains(*p),
{
    let mut lo_i: usize = 0;
    let mut hi_i: usize = v.len();
    while lo_i < hi_i
        invariant
            strictly_sorted(v@),
            lo_i <= hi_i <= v@.len(),
            forall|k: int| 0 <= k < lo_i ==> point_lt(v@[k], *p),
            forall|k: int| hi_i <= k < v@.len() ==> !point_lt(v@[k], *p),
        decreases hi_i - lo_i,
    {
        let mid = lo_i + (hi_i - lo_i) / 2;
        if point_lt_exec(&v[mid], p) {
            assert forall|k: int| 0 <= k < mid + 1 implies point_lt(v@[k], *p) by {
                if k < mid {
                    assert(point_lt(v@[k], v@[mid as int]));
                }
            }
            lo_i = mid + 1;
        } else {
            assert forall|k: int| mid <= k < v@.len() implies !point_lt(v@[k], *p) by {
                if k > mid {
                    assert(point_lt(v@[mid as int], v@[k]));
                }
            }
            hi_i = mid;
        }
    }
    if lo_i < v.len() && v[lo_i] == *p {
        true
    } else {
        assert forall|k: int| 0 <= k < v@.len() implies v@[k] != *p by {
            if k > lo_i {
                assert(point_lt(v@[lo_i as int], v@[k]));
            }
        }
        false
    }
}

/// The lattice points of the segment from `p1` to `p2`, endpoints included.
pub fn points_between(p1: &Point, p2: &Point) -> (r: Vec<Point>)
    requires
        aligned(*p1, *p2),
    ensures
        r@ == segment_seq(*p1, *p2),
{
    let mut out: Vec<Point> = Vec::new();
    if p1.0 == p2.0 {
        let a = if p1.1 <= p2.1 { p1.1 } else { p2.1 };
        let b = if p1.1 <= p2.1 { p2.1 } else { p1.1 };
        let mut cur = a;
        while cur < b
            invariant
                a <= cur <= b,
                out@.len() == cur - a,
                forall|j: int| 0 <= j < out@.len() ==> (#[trigger] out@[j]) == Point(p1.0, (a + j) as usize),
            decreases b - cur,
        {
            out.push(Point(p1.0, cur));
            cur += 1;
        }
        out.push(Point(p1.0, b));
        assert(out@ =~= segment_seq(*p1, *p2));
    } else {
        let a = if p1.0 <= p2.0 { p1.0 } else { p2.0 };
        let b = if p1.0 <= p2.0 { p2.0 } else { p1.0 };
        let mut cur = a;
        while cur < b
            invariant
                a <= cur <= b,
                out@.len() == cur - a,
                forall|j: int| 0 <= j < out@.len() ==> (#[trigger] out@[j]) == Point((a + j) as usize, p1.1),
            decreases b - cur,
        {
            out.push(Point(cur, p1.1));
            cur += 1;
        }
        out.push(Point(b, p1.1));
        assert(out@ =~= segment_seq(*p1, *p2));
    }
    out
}

/// Failure of polygon construction: two consecutive vertices share
/// neither coordinate, so their edge is diagonal.
#[derive(PartialEq, Eq, Structural, Debug, Copy, Clone)]
pub enum PolygonError {
    DiagonalEdge,
}

/// Every edge of the closed vertex cycle is horizontal or vertical.
pub open spec fn edges_aligned(vs: Seq<Point>) -> bool {
    forall|i: int| 0 <= i < vs.len() ==> aligned(#[trigger] vs[i], vs[(i + 1) % (vs.len() as int)])
}

/// The lattice points covered by the first `k` edges of the closed cycle.
pub open spec fn boundary_set_upto(vs: Seq<Point>, k: int) -> Set<Point> {
    Set::new(
        |p: Point|
            exists|i: int|
                0 <= i < k <= vs.len() && on_segment(#[trigger] vs[i], vs[(i + 1) % (vs.len() as int)], p),
    )
}

/// The full set of lattice points covering every boundary edge.
pub open spec fn boundary_set(vs: Seq<Point>) -> Set<Point> {
    boundary_set_upto(vs, vs.len() as int)
}

/// The closed sequence of boundary lattice points of an orthogonal
/// polygon, kept as a strictly sorted duplicate-free vector.
pub struct PolygonBoundary {
    pub points: Vec<Point>,
}

impl PolygonBoundary {
    pub open spec fn wf(self) -> bool {
        strictly_sorted(self.points@)
    }

    /// The boundary as a set of lattice points.
    pub open spec fn pset(self) -> Set<Point> {
        self.points@.to_set()
    }

    /// Expands each edge of the closed vertex cycle (the last vertex
    /// connects back to the first) into its full set of lattice points.
    /// Fails on the first edge that is neither horizontal nor vertical.
    pub fn from_vertices(vertices: &Vec<Point>) -> (r: Result<PolygonBoundary, PolygonError>)
        requires
            vertices@.len() > 0,
        ensures
            r is Ok <==> edges_aligned(vertices@),
            r matches Ok(b) ==> b.wf() && b.pset() =~= boundary_set(vertices@),
    {
        let n = vertices.len();
        let mut out: Vec<Point> = Vec::new();
        let mut i: usize = 0;
        while i < n
            invariant
                0 < n == vertices@.len(),
                i <= n,
                strictly_sorted(out@),
                forall|e: int| 0 <= e < i ==> aligned(#[trigger] vertices@[e], vertices@[(e + 1) % (n as int)]),
                forall|q: Point| out@.contains(q) <==> boundary_set_upto(vertices@, i as int).contains(q),
            decreases n - i,
        {
            let j = if i + 1 < n { i + 1 } else { 0 };
            proof {
                if i + 1 < n {
                    vstd::arithmetic::div_mod::lemma_small_mod((i + 1) as nat, n as nat);
                } else {
                    vstd::arithmetic::div_mod::lemma_mod_self_0(n as int);
                }
            }
            assert(j == (i + 1) % (n as int));
            let a = vertices[i];
            let b = vertices[j];
            if !(a.0 == b.0 || a.1 == b.1) {
                return Err(PolygonError::DiagonalEdge);
            }
            let seg = points_between(&a, &b);
            let m = seg.len();
            let mut k: usize = 0;
            while k < m
                invariant
                    k <= m == seg@.len(),
                    seg@ == segment_seq(a, b),
                    aligned(a, b),
                    strictly_sorted(out@),
                    forall|q: Point|
                        out@.contains(q) <==> (boundary_set_upto(vertices@, i as int).contains(q)
                            || seg@.take(k as int).contains(q)),
                decreases m - k,
            {
                insert_sorted(&mut out, seg[k]);
                let ghost t = seg@.take(k + 1);
                assert(t =~= seg@.take(k as int).push(seg@[k as int]));
                assert forall|q: Point| t.contains(q) implies (seg@.take(
                    k as int,
                ).contains(q) || q == seg@[k as int]) by {
                    let idx = choose|idx: int| 0 <= idx < t.len() && t[idx] == q;
                    if idx < k {
                        assert(seg@.take(k as int)[idx] == q);
                    }
                }
                assert forall|q: Point| seg@.take(k as int).contains(q) implies t.contains(q) by {
                    let idx = choose|idx: int| 0 <= idx < k && seg@.take(k as int)[idx] == q;
                    assert(t[idx] == q);
                }
                assert(t[k as int] == seg@[k as int]);
                assert(t.contains(seg@[k as int]));
                k += 1;
            }
            assert(seg@.take(m as int) =~= seg@);
            assert forall|q: Point|
                out@.contains(q) implies boundary_set_upto(vertices@, i + 1).contains(q) by {
                if boundary_set_upto(vertices@, i as int).contains(q) {
                    let e = choose|e: int|
                        0 <= e < i && on_segment(
                            #[trigger] vertices@[e],
                            vertices@[(e + 1) % (vertices@.len() as int)],
                            q,
                        );
                    assert(0 <= e < i + 1 <= vertices@.len() && on_segment(
                        vertices@[e],
                        vertices@[(e + 1) % (vertices@.len() as int)],
                        q,
                    ));
                } else {
                    lemma_segment_seq_contains(a, b, q);
                    assert(on_segment(vertices@[i as int], vertices@[(i + 1) % (vertices@.len() as int)], q));
                }
            }
            assert forall|q: Point|
                boundary_set_upto(vertices@, i + 1).contains(q) implies out@.contains(q) by {
                let e = choose|e: int|
                    0 <= e < i + 1 && on_segment(
                        #[trigger] vertices@[e],
                        vertices@[(e + 1) % (vertices@.len() as int)],
                        q,
                    );
                if e == i {
                    lemma_segment_seq_contains(a, b, q);
                } else {
                    assert(boundary_set_upto(vertices@, i as int).contains(q));
                }
            }
            i += 1;
        }
        let ghost vs = vertices@;
        let result = PolygonBoundary { points: out };
        assert forall|q: Point| result.pset().contains(q) <==> boundary_set(vs).contains(q) by {
            assert(result.points@.to_set().contains(q) == result.points@.contains(q));
        }
        Ok(result)
    }
}

} // verus!
