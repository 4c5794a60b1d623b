use vstd::prelude::*;
use crate::polygon::{
    Point, PolygonBoundary, contains_point, point_lt, strictly_increasing, strictly_sorted,
};

verus! {

/// A column `x` where a vertical boundary edge crosses the horizontal
/// strip between rows `y` and `y + 1`: both (x, y) and (x, y + 1) are
/// boundary points.
pub open spec fn is_crossing(s: Set<Point>, x: usize, y: usize) -> bool {
    y < usize::MAX && s.contains(Point(x, y)) && s.contains(Point(x, (y + 1) as usize))
}

/// Number of crossing columns of row `y` with x in [x_lo, x_hi).
/// This is the brute-force crossing count that the scanline index must
/// agree with.
pub open spec fn crossings_in(s: Set<Point>, y: usize, x_lo: int, x_hi: int) -> int
    decreases x_hi - x_lo,
{
    if x_lo >= x_hi {
        0
    } else {
        (if 0 <= x_lo <= usize::MAX && is_crossing(s, x_lo as usize, y) {
            1int
        } else {
            0
        }) + crossings_in(s, y, x_lo + 1, x_hi)
    }
}

/// Number of entries of `row` that lie in [x_lo, x_hi).
pub open spec fn row_count_in(row: Seq<usize>, x_lo: int, x_hi: int) -> int
    decreases row.len(),
{
    if row.len() == 0 {
        0
    } else {
        row_count_in(row.drop_last(), x_lo, x_hi) + (if x_lo <= row.last() < x_hi {
            1int
        } else {
            0
        })
    }
}

proof fn lemma_push_contains_point(s: Seq<Point>, e: Point)
    ensures
        forall|q: Point| #[trigger] s.push(e).contains(q) <==> (s.contains(q) || q == e),
{
    assert forall|q: Point| #[trigger] s.push(e).contains(q) implies (s.contains(q) || q == e) by {
        let i = choose|i: int| 0 <= i < s.push(e).len() && s.push(e)[i] == q;
        if i < s.len() {
            assert(s[i] == q);
        }
    }
    assert forall|q: Point| (s.contains(q) || q == e) implies #[trigger] s.push(e).contains(q) by {
        if q == e {
            assert(s.push(e)[s.len() as int] == q);
        } else {
            let i = choose|i: int| 0 <= i < s.len() && s[i] == q;
            assert(s.push(e)[i] == q);
        }
    }
}

proof fn lemma_push_contains_col(s: Seq<usize>, e: usize)
    ensures
        forall|x: usize| #[trigger] s.push(e).contains(x) <==> (s.contains(x) || x == e),
{
    assert forall|x: usize| #[trigger] s.push(e).contains(x) implies (s.contains(x) || x == e) by {
        let i = choose|i: int| 0 <= i < s.push(e).len() && s.push(e)[i] == x;
        if i < s.len() {
            assert(s[i] == x);
        }
    }
    assert forall|x: usize| (s.contains(x) || x == e) implies #[trigger] s.push(e).contains(x) by {
        if x == e {
            assert(s.push(e)[s.len() as int] == x);
        } else {
            let i = choose|i: int| 0 <= i < s.len() && s[i] == x;
            assert(s.push(e)[i] == x);
        }
    }
}

proof fn lemma_rc_nonneg(row: Seq<usize>, x_lo: int, x_hi: int)
    ensures
        0 <= row_count_in(row, x_lo, x_hi),
    decreases row.len(),
{
    if row.len() > 0 {
        lemma_rc_nonneg(row.drop_last(), x_lo, x_hi);
    }
}

proof fn lemma_rc_empty_window(row: Seq<usize>, x_lo: int, x_hi: int)
    requires
        x_lo >= x_hi,
    ensures
        row_count_in(row, x_lo, x_hi) == 0,
    decreases row.len(),
{
    if row.len() > 0 {
        lemma_rc_empty_window(row.drop_last(), x_lo, x_hi);
    }
}

proof fn lemma_rc_all_below(row: Seq<usize>, x_lo: int, x_hi: int)
    requires
        forall|k: int| 0 <= k < row.len() ==> (#[trigger] row[k]) < x_lo,
    ensures
        row_count_in(row, x_lo, x_hi) == 0,
    decreases row.len(),
{
    if row.len() > 0 {
        let rl = row.drop_last();
        assert forall|k: int| 0 <= k < rl.len() implies (#[trigger] rl[k]) < x_lo by {
            assert(rl[k] == row[k]);
        }
        lemma_rc_all_below(rl, x_lo, x_hi);
        assert(row.last() == row[row.len() - 1]);
    }
}

proof fn lemma_rc_split(row: Seq<usize>, a: int, b: int, c: int)
    requires
        a <= b <= c,
    ensures
        row_count_in(row, a, c) == row_count_in(row, a, b) + row_count_in(row, b, c),
    decreases row.len(),
{
    if row.len() > 0 {
        lemma_rc_split(row.drop_last(), a, b, c);
    }
}

proof fn lemma_rc_singleton(row: Seq<usize>, v: int)
    requires
        strictly_increasing(row),
        0 <= v <= usize::MAX,
    ensures
        row_count_in(row, v, v + 1) == (if row.contains(v as usize) {
            1int
        } else {
            0
        }),
    decreases row.len(),
{
    if row.len() == 0 {
        assert(!row.contains(v as usize));
    } else {
        let rl = row.drop_last();
        let last = row.last();
        assert forall|i: int, j: int| 0 <= i < j < rl.len() implies (#[trigger] rl[i]) < (
        #[trigger] rl[j]) by {
            assert(rl[i] == row[i] && rl[j] == row[j]);
        }
        lemma_rc_singleton(rl, v);
        if last == v as usize {
            if rl.contains(v as usize) {
                let idx = choose|idx: int| 0 <= idx < rl.len() && rl[idx] == v as usize;
                assert(row[idx] == v as usize);
                assert(row[idx] < row[row.len() - 1]);
                assert(false);
            }
            assert(row[row.len() - 1] == v as usize);
            assert(row.contains(v as usize));
        } else {
            if row.contains(v as usize) {
                let idx = choose|idx: int| 0 <= idx < row.len() && row[idx] == v as usize;
                assert(idx < row.len() - 1);
                assert(rl[idx] == v as usize);
                assert(rl.contains(v as usize));
            } else {
                if rl.contains(v as usize) {
                    let idx = choose|idx: int| 0 <= idx < rl.len() && rl[idx] == v as usize;
                    assert(row[idx] == v as usize);
                }
            }
        }
    }
}

/// The crossing count over a window agrees with the number of index
/// entries in that window, provided the row lists exactly the crossing
/// columns.
proof fn lemma_crossings_eq(row: Seq<usize>, s: Set<Point>, y: usize, x_lo: int, x_hi: int)
    requires
        strictly_increasing(row),
        forall|x: usize| #[trigger] row.contains(x) <==> is_crossing(s, x, y),
        0 <= x_lo,
        x_hi <= usize::MAX as int + 1,
    ensures
        crossings_in(s, y, x_lo, x_hi) == row_count_in(row, x_lo, x_hi),
    decreases x_hi - x_lo,
{
    if x_lo >= x_hi {
        lemma_rc_empty_window(row, x_lo, x_hi);
    } else {
        lemma_crossings_eq(row, s, y, x_lo + 1, x_hi);
        lemma_rc_split(row, x_lo, x_lo + 1, x_hi);
        lemma_rc_singleton(row, x_lo);
        assert(row.contains(x_lo as usize) <==> is_crossing(s, x_lo as usize, y));
    }
}

/// A suffix of a partitioned sorted row is exactly the entries above `x`.
proof fn lemma_rc_suffix(row: Seq<usize>, x: usize, idx: int)
    requires
        strictly_increasing(row),
        0 <= idx <= row.len(),
        forall|k: int| 0 <= k < idx ==> (#[trigger] row[k]) <= x,
        forall|k: int| idx <= k < row.len() ==> (#[trigger] row[k]) > x,
    ensures
        row_count_in(row, x + 1, usize::MAX as int + 1) == row.len() - idx,
    decreases row.len(),
{
    if row.len() == 0 {
    } else {
        let rl = row.drop_last();
        assert forall|i: int, j: int| 0 <= i < j < rl.len() implies (#[trigger] rl[i]) < (
        #[trigger] rl[j]) by {
            assert(rl[i] == row[i] && rl[j] == row[j]);
        }
        if idx == row.len() {
            assert forall|k: int| 0 <= k < rl.len() implies (#[trigger] rl[k]) <= x by {
                assert(rl[k] == row[k]);
            }
            lemma_rc_suffix(rl, x, rl.len() as int);
            assert(row.last() == row[row.len() - 1]);
        } else {
            assert forall|k: int| 0 <= k < idx implies (#[trigger] rl[k]) <= x by {
                assert(rl[k] == row[k]);
            }
            assert forall|k: int| idx <= k < rl.len() implies (#[trigger] rl[k]) > x by {
                assert(rl[k] == row[k]);
            }
            lemma_rc_suffix(rl, x, idx);
            assert(row.last() == row[row.len() - 1]);
        }
    }
}

/// Binary partition of a strictly increasing row: the number of entries
/// strictly greater than `x`.
pub fn count_greater(row: &Vec<usize>, x: usize) -> (r: usize)
    requires
        strictly_increasing(row@),
    ensures
        r == row_count_in(row@, x + 1, usize::MAX as int + 1),
{
    let mut lo_i: usize = 0;
    let mut hi_i: usize = row.len();
    while lo_i < hi_i
        invariant
            strictly_increasing(row@),
            lo_i <= hi_i <= row@.len(),
            forall|k: int| 0 <= k < lo_i ==> (#[trigger] row@[k]) <= x,
            forall|k: int| hi_i <= k < row@.len() ==> (#[trigger] row@[k]) > x,
        decreases hi_i - lo_i,
    {
        let mid = lo_i + (hi_i - lo_i) / 2;
        if row[mid] <= x {
            assert forall|k: int| 0 <= k < mid + 1 implies (#[trigger] row@[k]) <= x by {
                if k < mid {
                    assert(row@[k] < row@[mid as int]);
                }
            }
            lo_i = mid + 1;
        } else {
            assert forall|k: int| mid <= k < row@.len() implies (#[trigger] row@[k]) > x by {
                if k > mid {
                    assert(row@[mid as int] < row@[k]);
                }
            }
            hi_i = mid;
        }
    }
    proof {
        lemma_rc_suffix(row@, x, lo_i as int);
    }
    row.len() - lo_i
}

/// Per-row sorted crossing columns, for rows min_y ..= max_y; the entry
/// for row y sits at index y - min_y.  Built once from the boundary and
/// immutable afterwards.
pub struct ScanlineIndex {
    pub min_y: usize,
    pub max_y: usize,
    pub rows: Vec<Vec<usize>>,
}

impl ScanlineIndex {
    /// The row lists exactly the crossing columns of its scanline, in
    /// strictly increasing order.
    pub open spec fn row_wf(row: Seq<usize>, s: Set<Point>, y: usize) -> bool {
        strictly_increasing(row) && (forall|x: usize|
            #[trigger] row.contains(x) <==> is_crossing(s, x, y))
    }

    pub open spec fn wf(self, s: Set<Point>) -> bool {
        &&& self.min_y <= self.max_y
        &&& self.rows@.len() == self.max_y - self.min_y + 1
        &&& forall|r: int|
            0 <= r < self.rows@.len() ==> Self::row_wf(
                (#[trigger] self.rows@[r])@,
                s,
                (self.min_y + r) as usize,
            )
    }
}

/// Builds, for each scanline y in min_y ..= max_y, the sorted list of x
/// columns where a vertical boundary edge crosses between y and y + 1.
pub fn build_scanline_crossings(boundary: &PolygonBoundary, min_y: usize, max_y: usize) -> (r:
    ScanlineIndex)
    requires
        boundary.wf(),
        min_y <= max_y,
        max_y - min_y < usize::MAX,
        forall|p: Point| boundary.pset().contains(p) ==> min_y <= (#[trigger] p.1) <= max_y,
    ensures
        r.wf(boundary.pset()),
        r.min_y == min_y,
        r.max_y == max_y,
{
    let pts = &boundary.points;
    let ghost s = boundary.pset();
    let n_rows = max_y - min_y + 1;
    let mut rows: Vec<Vec<usize>> = Vec::new();
    let mut ri: usize = 0;
    while ri < n_rows
        invariant
            pts@ == boundary.points@,
            strictly_sorted(pts@),
            s == pts@.to_set(),
            s == boundary.pset(),
            min_y <= max_y,
            n_rows == max_y - min_y + 1,
            ri <= n_rows,
            rows@.len() == ri,
            forall|p: Point| s.contains(p) ==> min_y <= (#[trigger] p.1) <= max_y,
            forall|r: int|
                0 <= r < ri ==> ScanlineIndex::row_wf(
                    (#[trigger] rows@[r])@,
                    s,
                    (min_y + r) as usize,
                ),
        decreases n_rows - ri,
    {
        let y = min_y + ri;
        let mut row: Vec<usize> = Vec::new();
        let mut k: usize = 0;
        while k < pts.len()
            invariant
                pts@ == boundary.points@,
                strictly_sorted(pts@),
                s == pts@.to_set(),
                min_y <= y <= max_y,
                k <= pts@.len(),
                strictly_increasing(row@),
                forall|p: Point| s.contains(p) ==> min_y <= (#[trigger] p.1) <= max_y,
                forall|x: usize|
                    #[trigger] row@.contains(x) <==> (pts@.take(k as int).contains(Point(x, y))
                        && y < max_y && s.contains(Point(x, (y + 1) as usize))),
            decreases pts@.len() - k,
        {
            let ghost prev = row@;
            let ghost tk = pts@.take(k as int);
            let ghost tk1 = pts@.take(k as int + 1);
            proof {
                assert(tk1 =~= tk.push(pts@[k as int]));
                lemma_push_contains_point(tk, pts@[k as int]);
            }
            let p = pts[k];
            if p.1 == y && y < max_y {
                let up = Point(p.0, p.1 + 1);
                if contains_point(pts, &up) {
                    proof {
                        assert(s.contains(up) == pts@.contains(up));
                        assert forall|m: int| 0 <= m < prev.len() implies (#[trigger] prev[m])
                            < p.0 by {
                            assert(prev.contains(prev[m]));
                            let t = choose|t: int| 0 <= t < tk.len() && tk[t] == Point(prev[m], y);
                            assert(pts@[t] == Point(prev[m], y));
                            assert(point_lt(pts@[t], pts@[k as int]));
                        }
                        lemma_push_contains_col(prev, p.0);
                    }
                    row.push(p.0);
                    proof {
                        assert(row@ == prev.push(p.0));
                        assert forall|i: int, j: int| 0 <= i < j < row@.len() implies (
                        #[trigger] row@[i]) < (#[trigger] row@[j]) by {
                            if j < row@.len() - 1 {
                                assert(prev[i] < prev[j]);
                            } else {
                                assert(row@[j] == p.0);
                                assert(row@[i] == prev[i]);
                            }
                        }
                        assert forall|x: usize|
                            #[trigger] row@.contains(x) <==> (tk1.contains(Point(x, y)) && y
                                < max_y && s.contains(Point(x, (y + 1) as usize))) by {
                            assert(row@.contains(x) <==> (prev.contains(x) || x == p.0));
                            assert(tk1.contains(Point(x, y)) <==> (tk.contains(Point(x, y))
                                || Point(x, y) == pts@[k as int]));
                            if x == p.0 {
                                assert(Point(x, y) == pts@[k as int]);
                                assert(s.contains(Point(x, (y + 1) as usize)));
                            }
                        }
                    }
                } else {
                    proof {
                        assert(s.contains(up) == pts@.contains(up));
                        assert forall|x: usize|
                            #[trigger] row@.contains(x) <==> (tk1.contains(Point(x, y)) && y
                                < max_y && s.contains(Point(x, (y + 1) as usize))) by {
                            if x == p.0 {
                                assert(!s.contains(Point(x, (y + 1) as usize)));
                            } else {
                                assert(tk1.contains(Point(x, y)) <==> tk.contains(Point(x, y)));
                            }
                        }
                    }
                }
            } else {
                proof {
                    assert forall|x: usize|
                        #[trigger] row@.contains(x) <==> (tk1.contains(Point(x, y)) && y < max_y
                            && s.contains(Point(x, (y + 1) as usize))) by {
                        if Point(x, y) != pts@[k as int] {
                            assert(tk1.contains(Point(x, y)) <==> tk.contains(Point(x, y)));
                        }
                    }
                }
            }
            k += 1;
            assert(pts@.take(k as int) == tk1);
        }
        proof {
            assert(pts@.take(pts@.len() as int) =~= pts@);
            assert forall|x: usize| #[trigger] row@.contains(x) <==> is_crossing(s, x, y) by {
                let q = Point(x, (y + 1) as usize);
                if is_crossing(s, x, y) {
                    assert(s.contains(q));
                    assert(q.1 <= max_y);
                    assert(y < max_y);
                    assert(s.contains(Point(x, y)));
                    assert(pts@.contains(Point(x, y)));
                    assert(pts@.take(pts@.len() as int).contains(Point(x, y)));
                }
                if row@.contains(x) {
                    assert(pts@.take(pts@.len() as int).contains(Point(x, y)));
                    assert(pts@.contains(Point(x, y)));
                    assert(s.contains(Point(x, y)));
                    assert(y < usize::MAX);
                }
            }
        }
        rows.push(row);
        ri += 1;
    }
    ScanlineIndex { min_y, max_y, rows }
}

/// Read-only point-in-polygon oracle: the boundary point set, the
/// scanline index over it, and the polygon's bounding box.
pub struct ContainmentOracle {
    pub boundary: PolygonBoundary,
    pub index: ScanlineIndex,
    pub min_x: usize,
    pub max_x: usize,
}

/// The ray-casting containment rule, stated against the raw boundary
/// set: a point is inside iff it is itself a boundary point, or the
/// brute-force count of vertical crossings strictly to its right along
/// its row is odd.
pub open spec fn inside_spec(o: ContainmentOracle, p: Point) -> bool {
    o.pset().contains(p) || (o.index.min_y <= p.1 <= o.index.max_y && crossings_in(
        o.pset(),
        p.1,
        p.0 + 1,
        o.max_x as int + 1,
    ) % 2 == 1)
}

impl ContainmentOracle {
    /// The boundary as a set of lattice points.
    pub open spec fn pset(self) -> Set<Point> {
        self.boundary.pset()
    }

    pub open spec fn wf(self) -> bool {
        &&& self.boundary.wf()
        &&& self.boundary.points@.len() > 0
        &&& self.index.wf(self.pset())
        &&& self.min_x <= self.max_x
        &&& forall|p: Point|
            #[trigger] self.pset().contains(p) ==> self.min_x <= p.0 <= self.max_x
                && self.index.min_y <= p.1 <= self.index.max_y
    }

    /// Builds the oracle from a polygon boundary: computes the bounding
    /// box and the scanline index.
    pub fn new(boundary: PolygonBoundary) -> (r: ContainmentOracle)
        requires
            boundary.wf(),
            boundary.points@.len() > 0,
            forall|p: Point| boundary.pset().contains(p) ==> (#[trigger] p.1) < usize::MAX,
        ensures
            r.wf(),
            r.pset() == boundary.pset(),
    {
        let n = boundary.points.len();
        let min_x = boundary.points[0].0;
        let max_x = boundary.points[n - 1].0;
        let mut min_y = boundary.points[0].1;
        let mut max_y = boundary.points[0].1;
        let mut k: usize = 1;
        while k < n
            invariant
                strictly_sorted(boundary.points@),
                n == boundary.points@.len(),
                0 < k <= n,
                forall|m: int| 0 <= m < k ==> min_y <= (#[trigger] boundary.points@[m]).1 <= max_y,
                exists|m: int| 0 <= m < k && (#[trigger] boundary.points@[m]).1 == min_y,
                exists|m: int| 0 <= m < k && (#[trigger] boundary.points@[m]).1 == max_y,
            decreases n - k,
        {
            let py = boundary.points[k].1;
            if py < min_y {
                min_y = py;
            }
            if py > max_y {
                max_y = py;
            }
            assert(boundary.points@[k as int].1 == py);
            k += 1;
        }
        proof {
            assert forall|p: Point| boundary.pset().contains(p) implies min_x <= p.0 <= max_x
                && min_y <= p.1 <= max_y by {
                let m = choose|m: int| 0 <= m < boundary.points@.len() && boundary.points@[m] == p;
                if m > 0 {
                    assert(point_lt(boundary.points@[0], boundary.points@[m]));
                }
                if m < n - 1 {
                    assert(point_lt(boundary.points@[m], boundary.points@[n - 1]));
                }
                assert(boundary.points@[m].1 == p.1);
            }
            let wit = choose|m: int| 0 <= m < n && (#[trigger] boundary.points@[m]).1 == max_y;
            assert(boundary.pset().contains(boundary.points@[wit]));
            assert((boundary.points@[wit]).1 < usize::MAX);
        }
        let index = build_scanline_crossings(&boundary, min_y, max_y);
        ContainmentOracle { boundary, index, min_x, max_x }
    }

    /// Ray-casting containment query: true iff `p` is a boundary point
    /// or the number of vertical crossings strictly right of `p` in its
    /// row is odd.  On-boundary counts as inside.
    pub fn contains(&self, p: &Point) -> (r: bool)
        requires
            self.wf(),
        ensures
            r == inside_spec(*self, *p),
    {
        if contains_point(&self.boundary.points, p) {
            assert(self.pset().contains(*p));
            return true;
        }
        assert(!self.pset().contains(*p));
        if p.1 < self.index.min_y {
            return false;
        }
        if p.1 > self.index.max_y {
            return false;
        }
        let ri = p.1 - self.index.min_y;
        let row = &self.index.rows[ri];
        let cnt = count_greater(row, p.0);
        proof {
            let s = self.pset();
            assert(ScanlineIndex::row_wf((self.index.rows@[ri as int])@, s, (self.index.min_y
                + ri) as usize));
            assert((self.index.min_y + ri) as usize == p.1);
            assert forall|m: int| 0 <= m < row@.len() implies (#[trigger] row@[m])
                <= self.max_x by {
                assert(row@.contains(row@[m]));
                assert(is_crossing(s, row@[m], p.1));
                assert(s.contains(Point(row@[m], p.1)));
            }
            if p.0 <= self.max_x {
                lemma_rc_split(row@, p.0 + 1, self.max_x as int + 1, usize::MAX as int + 1);
                lemma_rc_all_below(row@, self.max_x as int + 1, usize::MAX as int + 1);
                lemma_crossings_eq(row@, s, p.1, p.0 + 1, self.max_x as int + 1);
            } else {
                lemma_rc_all_below(row@, p.0 + 1, usize::MAX as int + 1);
            }
        }
        cnt % 2 == 1
    }
}

} // verus!
