use vstd::prelude::*;
use rayon::iter::{IntoParallelIterator, ParallelIterator};
use crate::polygon::{Point, hi, lo};
use crate::scanline::{ContainmentOracle, inside_spec};

verus! {

pub open spec fn abs_diff_spec(a: usize, b: usize) -> int {
    if a <= b {
        b - a
    } else {
        a - b
    }
}

/// Inclusive-cell area of the rectangle with opposite corners p and q:
/// (|x2 - x1| + 1) * (|y2 - y1| + 1).
pub open spec fn area_spec(p: Point, q: Point) -> int {
    (abs_diff_spec(p.0, q.0) + 1) * (abs_diff_spec(p.1, q.1) + 1)
}

proof fn lemma_area_factors(dx: int, dy: int)
    requires
        0 <= dx,
        0 <= dy,
        (dx + 1) * (dy + 1) <= usize::MAX as int,
    ensures
        dx + 1 <= usize::MAX as int,
        dy + 1 <= usize::MAX as int,
{
    assert(dx + 1 <= (dx + 1) * (dy + 1)) by (nonlinear_arith)
        requires
            0 <= dx,
            0 <= dy,
    ;
    assert(dy + 1 <= (dx + 1) * (dy + 1)) by (nonlinear_arith)
        requires
            0 <= dx,
            0 <= dy,
    ;
}

/// Inclusive-cell rectangle area between two opposite corners.
pub fn rectangle_area(p1: &Point, p2: &Point) -> (r: usize)
    requires
        area_spec(*p1, *p2) <= usize::MAX,
    ensures
        r == area_spec(*p1, *p2),
{
    let dx = if p1.0 <= p2.0 {
        p2.0 - p1.0
    } else {
        p1.0 - p2.0
    };
    let dy = if p1.1 <= p2.1 {
        p2.1 - p1.1
    } else {
        p1.1 - p2.1
    };
    proof {
        lemma_area_factors(dx as int, dy as int);
    }
    (dx + 1) * (dy + 1)
}

/// The normalized rectangle of the pair fits in the polygon's overall
/// bounding box.
pub open spec fn bbox_ok(o: ContainmentOracle, p: Point, q: Point) -> bool {
    &&& o.min_x <= lo(p.0, q.0)
    &&& hi(p.0, q.0) <= o.max_x
    &&& o.index.min_y <= lo(p.1, q.1)
    &&& hi(p.1, q.1) <= o.index.max_y
}

/// The midpoint of the normalized rectangle, the validator's probe.
pub open spec fn rect_mid(p: Point, q: Point) -> Point {
    Point(
        (lo(p.0, q.0) + (hi(p.0, q.0) - lo(p.0, q.0)) / 2) as usize,
        (lo(p.1, q.1) + (hi(p.1, q.1) - lo(p.1, q.1)) / 2) as usize,
    )
}

/// Every lattice point on the four boundary edges of the normalized
/// rectangle (top row, bottom row, left column, right column) is inside
/// the polygon, on-boundary counting as inside.
pub open spec fn rect_boundary_inside(o: ContainmentOracle, p: Point, q: Point) -> bool {
    &&& forall|x: usize|
        lo(p.0, q.0) <= x <= hi(p.0, q.0) ==> (#[trigger] inside_spec(o, Point(x, lo(p.1, q.1))))
            && inside_spec(o, Point(x, hi(p.1, q.1)))
    &&& forall|y: usize|
        lo(p.1, q.1) <= y <= hi(p.1, q.1) ==> (#[trigger] inside_spec(o, Point(lo(p.0, q.0), y)))
            && inside_spec(o, Point(hi(p.0, q.0), y))
}

/// The validator accepts the pair: the midpoint probe passes and the
/// full boundary walk passes.
pub open spec fn validated(o: ContainmentOracle, p: Point, q: Point) -> bool {
    inside_spec(o, rect_mid(p, q)) && rect_boundary_inside(o, p, q)
}

/// The pair survives the bounding-box reject and full validation.
pub open spec fn accepted(o: ContainmentOracle, p: Point, q: Point) -> bool {
    bbox_ok(o, p, q) && validated(o, p, q)
}

/// Area contributed by an accepted pair; a rejected pair contributes 0.
pub open spec fn accepted_area(o: ContainmentOracle, p: Point, q: Point) -> int {
    if accepted(o, p, q) {
        area_spec(p, q)
    } else {
        0
    }
}

/// Area contributed under full validation alone, without the
/// bounding-box reject: what an unpruned brute-force loop computes.
pub open spec fn validated_area(o: ContainmentOracle, p: Point, q: Point) -> int {
    if validated(o, p, q) {
        area_spec(p, q)
    } else {
        0
    }
}

/// Decides whether the full boundary of the rectangle implied by the
/// pair lies inside the polygon, returning its area if so.  A failed
/// midpoint probe or any boundary point outside short-circuits to None.
pub fn contained_rectangle_area_scanline(p1: &Point, p2: &Point, oracle: &ContainmentOracle) -> (r:
    Option<usize>)
    requires
        oracle.wf(),
        area_spec(*p1, *p2) <= usize::MAX,
    ensures
        r is Some <==> validated(*oracle, *p1, *p2),
        r matches Some(a) ==> a == area_spec(*p1, *p2),
{
    let area = rectangle_area(p1, p2);
    let x1 = if p1.0 <= p2.0 {
        p1.0
    } else {
        p2.0
    };
    let x2 = if p1.0 <= p2.0 {
        p2.0
    } else {
        p1.0
    };
    let y1 = if p1.1 <= p2.1 {
        p1.1
    } else {
        p2.1
    };
    let y2 = if p1.1 <= p2.1 {
        p2.1
    } else {
        p1.1
    };
    let sample = Point(x1 + (x2 - x1) / 2, y1 + (y2 - y1) / 2);
    assert(sample == rect_mid(*p1, *p2));
    if !oracle.contains(&sample) {
        return None;
    }
    let mut x = x1;
    while x < x2
        invariant
            oracle.wf(),
            x1 <= x <= x2,
            x1 == lo(p1.0, p2.0) && x2 == hi(p1.0, p2.0),
            y1 == lo(p1.1, p2.1) && y2 == hi(p1.1, p2.1),
            forall|x0: usize|
                x1 <= x0 < x ==> (#[trigger] inside_spec(*oracle, Point(x0, y1))) && inside_spec(
                    *oracle,
                    Point(x0, y2),
                ),
        decreases x2 - x,
    {
        let ghost xg = x;
        if !oracle.contains(&Point(x, y1)) {
            return None;
        }
        if !oracle.contains(&Point(x, y2)) {
            return None;
        }
        x += 1;
        assert forall|x0: usize| x1 <= x0 < x implies (#[trigger] inside_spec(
            *oracle,
            Point(x0, y1),
        )) && inside_spec(*oracle, Point(x0, y2)) by {
            if x0 == xg {
                assert(inside_spec(*oracle, Point(xg, y1)));
                assert(inside_spec(*oracle, Point(xg, y2)));
            }
        }
    }
    if !oracle.contains(&Point(x2, y1)) {
        return None;
    }
    if !oracle.contains(&Point(x2, y2)) {
        return None;
    }
    let mut y = y1;
    while y < y2
        invariant
            oracle.wf(),
            y1 <= y <= y2,
            x1 == lo(p1.0, p2.0) && x2 == hi(p1.0, p2.0),
            y1 == lo(p1.1, p2.1) && y2 == hi(p1.1, p2.1),
            forall|y0: usize|
                y1 <= y0 < y ==> (#[trigger] inside_spec(*oracle, Point(x1, y0))) && inside_spec(
                    *oracle,
                    Point(x2, y0),
                ),
        decreases y2 - y,
    {
        let ghost yg = y;
        if !oracle.contains(&Point(x1, y)) {
            return None;
        }
        if !oracle.contains(&Point(x2, y)) {
            return None;
        }
        y += 1;
        assert forall|y0: usize| y1 <= y0 < y implies (#[trigger] inside_spec(
            *oracle,
            Point(x1, y0),
        )) && inside_spec(*oracle, Point(x2, y0)) by {
            if y0 == yg {
                assert(inside_spec(*oracle, Point(x1, yg)));
                assert(inside_spec(*oracle, Point(x2, yg)));
            }
        }
    }
    if !oracle.contains(&Point(x1, y2)) {
        return None;
    }
    if !oracle.contains(&Point(x2, y2)) {
        return None;
    }
    proof {
        assert forall|x0: usize| lo(p1.0, p2.0) <= x0 <= hi(p1.0, p2.0) implies (
        #[trigger] inside_spec(*oracle, Point(x0, lo(p1.1, p2.1)))) && inside_spec(
            *oracle,
            Point(x0, hi(p1.1, p2.1)),
        ) by {
            if x0 == x2 {
                assert(inside_spec(*oracle, Point(x2, y1)));
                assert(inside_spec(*oracle, Point(x2, y2)));
            } else {
                assert(inside_spec(*oracle, Point(x0, y1)));
            }
        }
        assert forall|y0: usize| lo(p1.1, p2.1) <= y0 <= hi(p1.1, p2.1) implies (
        #[trigger] inside_spec(*oracle, Point(lo(p1.0, p2.0), y0))) && inside_spec(
            *oracle,
            Point(hi(p1.0, p2.0), y0),
        ) by {
            if y0 == y2 {
                assert(inside_spec(*oracle, Point(x1, y2)));
                assert(inside_spec(*oracle, Point(x2, y2)));
            } else {
                assert(inside_spec(*oracle, Point(x1, y0)));
            }
        }
        assert(rect_boundary_inside(*oracle, *p1, *p2));
    }
    Some(area)
}

/// The process-lifetime best contained area found so far.  It starts at
/// zero, and `raise` only ever moves it upward, mirroring the
/// compare-and-swap monotonic maximum of the shared search.
pub struct GlobalBest {
    pub best: usize,
}

impl GlobalBest {
    pub fn new() -> (r: GlobalBest)
        ensures
            r.best == 0,
    {
        GlobalBest { best: 0 }
    }

    pub fn get(&self) -> (r: usize)
        ensures
            r == self.best,
    {
        self.best
    }

    /// Raises the best to `area` if that improves it; the value never
    /// decreases.
    pub fn raise(&mut self, area: usize)
        ensures
            final(self).best == (if area > old(self).best {
                area
            } else {
                old(self).best
            }),
            old(self).best <= final(self).best,
    {
        if area > self.best {
            self.best = area;
        }
    }
}

/// The value of the shared best after a sequence of raises starting
/// from `b0`.
pub open spec fn best_after(b0: int, areas: Seq<usize>) -> int
    decreases areas.len(),
{
    if areas.len() == 0 {
        b0
    } else {
        let prev = best_after(b0, areas.drop_last());
        if areas.last() > prev {
            areas.last() as int
        } else {
            prev
        }
    }
}

/// The shared best is monotone over time: sampled after t1 raises and
/// again after t2 >= t1 raises, the later sample is never smaller.
pub proof fn lemma_global_best_monotonic(b0: int, areas: Seq<usize>, t1: int, t2: int)
    requires
        0 <= t1 <= t2 <= areas.len(),
    ensures
        best_after(b0, areas.take(t1)) <= best_after(b0, areas.take(t2)),
    decreases t2 - t1,
{
    if t1 < t2 {
        lemma_global_best_monotonic(b0, areas, t1, t2 - 1);
        let t = areas.take(t2);
        assert(t.drop_last() =~= areas.take(t2 - 1));
        assert(t.len() == t2);
    }
}

/// Best accepted area among the pairs (i, t) with i < t < j.
pub open spec fn row_pref(o: ContainmentOracle, s: Seq<Point>, i: int, j: int) -> int
    decreases j - i,
{
    if j <= i + 1 {
        0
    } else {
        let prev = row_pref(o, s, i, j - 1);
        let a = accepted_area(o, s[i], s[j - 1]);
        if a > prev {
            a
        } else {
            prev
        }
    }
}

/// Best accepted area among all pairs drawn from the first i corners.
pub open spec fn pref_best(o: ContainmentOracle, s: Seq<Point>, i: int) -> int
    decreases i,
{
    if i <= 0 {
        0
    } else {
        let prev = pref_best(o, s, i - 1);
        let r = row_pref(o, s, i - 1, s.len() as int);
        if r > prev {
            r
        } else {
            prev
        }
    }
}

/// As `row_pref`, but under full validation alone (no bounding-box
/// reject): the row maximum of an unpruned brute-force loop.
pub open spec fn row_pref_bf(o: ContainmentOracle, s: Seq<Point>, i: int, j: int) -> int
    decreases j - i,
{
    if j <= i + 1 {
        0
    } else {
        let prev = row_pref_bf(o, s, i, j - 1);
        let a = validated_area(o, s[i], s[j - 1]);
        if a > prev {
            a
        } else {
            prev
        }
    }
}

/// As `pref_best`, but for the unpruned brute-force loop.
pub open spec fn pref_best_bf(o: ContainmentOracle, s: Seq<Point>, i: int) -> int
    decreases i,
{
    if i <= 0 {
        0
    } else {
        let prev = pref_best_bf(o, s, i - 1);
        let r = row_pref_bf(o, s, i - 1, s.len() as int);
        if r > prev {
            r
        } else {
            prev
        }
    }
}

proof fn lemma_row_pref_nonneg(o: ContainmentOracle, s: Seq<Point>, i: int, j: int)
    ensures
        0 <= row_pref(o, s, i, j),
    decreases j - i,
{
    if j > i + 1 {
        lemma_row_pref_nonneg(o, s, i, j - 1);
    }
}

proof fn lemma_pref_best_nonneg(o: ContainmentOracle, s: Seq<Point>, i: int)
    ensures
        0 <= pref_best(o, s, i),
    decreases i,
{
    if i > 0 {
        lemma_pref_best_nonneg(o, s, i - 1);
        lemma_row_pref_nonneg(o, s, i - 1, s.len() as int);
    }
}

/// All corner pairs have an area that a usize can hold.
pub open spec fn areas_fit(s: Seq<Point>) -> bool {
    forall|i: int, j: int|
        0 <= i < s.len() && 0 <= j < s.len() ==> area_spec(#[trigger] s[i], #[trigger] s[j])
            <= usize::MAX
}

/// Largest area among corner pairs whose full rectangle boundary lies
/// inside the polygon, found by the pruned single-threaded search:
/// cheap area reject against the shared best, bounding-box reject,
/// midpoint probe, then the full boundary walk.  Returns None when
/// fewer than two corners exist; Some(0) when pairs exist but none is
/// accepted.
pub fn part2(corners: &Vec<Point>, oracle: &ContainmentOracle) -> (r: Option<usize>)
    requires
        oracle.wf(),
        areas_fit(corners@),
    ensures
        r is Some <==> corners@.len() >= 2,
        r matches Some(m) ==> m == pref_best(*oracle, corners@, corners@.len() as int),
{
    let n = corners.len();
    if n < 2 {
        return None;
    }
    let mut best = GlobalBest::new();
    let mut i: usize = 0;
    while i < n
        invariant
            oracle.wf(),
            areas_fit(corners@),
            n == corners@.len(),
            i <= n,
            best.best == pref_best(*oracle, corners@, i as int),
        decreases n - i,
    {
        let mut j = i + 1;
        while j < n
            invariant
                oracle.wf(),
                areas_fit(corners@),
                n == corners@.len(),
                i < n,
                i + 1 <= j <= n,
                best.best == (if row_pref(*oracle, corners@, i as int, j as int) > pref_best(
                    *oracle,
                    corners@,
                    i as int,
                ) {
                    row_pref(*oracle, corners@, i as int, j as int)
                } else {
                    pref_best(*oracle, corners@, i as int)
                }),
            decreases n - j,
        {
            let p = corners[i];
            let q = corners[j];
            let area = rectangle_area(&p, &q);
            let snapshot = best.get();
            if area > snapshot {
                let x1 = if p.0 <= q.0 {
                    p.0
                } else {
                    q.0
                };
                let x2 = if p.0 <= q.0 {
                    q.0
                } else {
                    p.0
                };
                let y1 = if p.1 <= q.1 {
                    p.1
                } else {
                    q.1
                };
                let y2 = if p.1 <= q.1 {
                    q.1
                } else {
                    p.1
                };
                let in_bbox = oracle.min_x <= x1 && x2 <= oracle.max_x && oracle.index.min_y <= y1
                    && y2 <= oracle.index.max_y;
                if in_bbox {
                    assert(bbox_ok(*oracle, p, q));
                    if let Some(a) = contained_rectangle_area_scanline(&p, &q, oracle) {
                        best.raise(a);
                    }
                } else {
                    assert(!bbox_ok(*oracle, p, q));
                }
            } else {
                assert(accepted_area(*oracle, p, q) <= area);
            }
            j += 1;
        }
        proof {
            lemma_pref_best_nonneg(*oracle, corners@, i as int);
        }
        i += 1;
    }
    Some(best.get())
}

/// Best accepted area among the pairs whose first element is corner i:
/// one row of the pair space, validated with the bounding-box reject
/// and a row-local running best, but no cross-row sharing.
pub fn row_best_area(corners: &Vec<Point>, oracle: &ContainmentOracle, i: usize) -> (r: usize)
    requires
        oracle.wf(),
        areas_fit(corners@),
        i < corners@.len(),
    ensures
        r == row_pref(*oracle, corners@, i as int, corners@.len() as int),
{
    let n = corners.len();
    let mut best: usize = 0;
    let mut j = i + 1;
    while j < n
        invariant
            oracle.wf(),
            areas_fit(corners@),
            n == corners@.len(),
            i < n,
            i + 1 <= j <= n,
            best == row_pref(*oracle, corners@, i as int, j as int),
        decreases n - j,
    {
        let p = corners[i];
        let q = corners[j];
        let area = rectangle_area(&p, &q);
        if area > best {
            let x1 = if p.0 <= q.0 {
                p.0
            } else {
                q.0
            };
            let x2 = if p.0 <= q.0 {
                q.0
            } else {
                p.0
            };
            let y1 = if p.1 <= q.1 {
                p.1
            } else {
                q.1
            };
            let y2 = if p.1 <= q.1 {
                q.1
            } else {
                p.1
            };
            let in_bbox = oracle.min_x <= x1 && x2 <= oracle.max_x && oracle.index.min_y <= y1
                && y2 <= oracle.index.max_y;
            if in_bbox {
                assert(bbox_ok(*oracle, p, q));
                if let Some(a) = contained_rectangle_area_scanline(&p, &q, oracle) {
                    if a > best {
                        best = a;
                    }
                }
            } else {
                assert(!bbox_ok(*oracle, p, q));
            }
        } else {
            assert(accepted_area(*oracle, p, q) <= area);
        }
        j += 1;
    }
    best
}

/// Unpruned brute force: validates every pair, with no area reject and
/// no bounding-box reject, and returns the maximum validated area.
/// The single-threaded reference the maximizer is measured against.
pub fn brute_force_max(corners: &Vec<Point>, oracle: &ContainmentOracle) -> (r: Option<usize>)
    requires
        oracle.wf(),
        areas_fit(corners@),
    ensures
        r is Some <==> corners@.len() >= 2,
        r matches Some(m) ==> m == pref_best_bf(*oracle, corners@, corners@.len() as int),
{
    let n = corners.len();
    if n < 2 {
        return None;
    }
    let mut best: usize = 0;
    let mut i: usize = 0;
    while i < n
        invariant
            oracle.wf(),
            areas_fit(corners@),
            n == corners@.len(),
            i <= n,
            best == pref_best_bf(*oracle, corners@, i as int),
        decreases n - i,
    {
        let mut j = i + 1;
        let mut row: usize = 0;
        while j < n
            invariant
                oracle.wf(),
                areas_fit(corners@),
                n == corners@.len(),
                i < n,
                i + 1 <= j <= n,
                row == row_pref_bf(*oracle, corners@, i as int, j as int),
                best == pref_best_bf(*oracle, corners@, i as int),
            decreases n - j,
        {
            let p = corners[i];
            let q = corners[j];
            if let Some(a) = contained_rectangle_area_scanline(&p, &q, oracle) {
                if a > row {
                    row = a;
                }
            }
            j += 1;
        }
        if row > best {
            best = row;
        }
        i += 1;
    }
    Some(best)
}


/// Best raw area among the pairs (i, t) with i < t < j, containment
/// ignored.
pub open spec fn row_area(s: Seq<Point>, i: int, j: int) -> int
    decreases j - i,
{
    if j <= i + 1 {
        0
    } else {
        let prev = row_area(s, i, j - 1);
        let a = area_spec(s[i], s[j - 1]);
        if a > prev {
            a
        } else {
            prev
        }
    }
}

/// Best raw area among all pairs drawn from the first i corners,
/// containment ignored.
pub open spec fn pref_area(s: Seq<Point>, i: int) -> int
    decreases i,
{
    if i <= 0 {
        0
    } else {
        let prev = pref_area(s, i - 1);
        let r = row_area(s, i - 1, s.len() as int);
        if r > prev {
            r
        } else {
            prev
        }
    }
}

/// Baseline companion: the largest rectangle area over all corner
/// pairs, ignoring containment entirely.  None when fewer than two
/// corners exist.
pub fn part1(points: &Vec<Point>) -> (r: Option<usize>)
    requires
        areas_fit(points@),
    ensures
        r is Some <==> points@.len() >= 2,
        r matches Some(m) ==> m == pref_area(points@, points@.len() as int),
{
    let n = points.len();
    if n < 2 {
        return None;
    }
    let mut best: usize = 0;
    let mut i: usize = 0;
    while i < n
        invariant
            areas_fit(points@),
            n == points@.len(),
            i <= n,
            best == pref_area(points@, i as int),
        decreases n - i,
    {
        let mut j = i + 1;
        let mut row: usize = 0;
        while j < n
            invariant
                areas_fit(points@),
                n == points@.len(),
                i < n,
                i + 1 <= j <= n,
                row == row_area(points@, i as int, j as int),
            decreases n - j,
        {
            let a = rectangle_area(&points[i], &points[j]);
            if a > row {
                row = a;
            }
            j += 1;
        }
        if row > best {
            best = row;
        }
        i += 1;
    }
    Some(best)
}

proof fn lemma_pref_best_partial(o: ContainmentOracle, s: Seq<Point>, k: int)
    requires
        0 < k <= s.len(),
    ensures
        exists|i: int|
            0 <= i < k && pref_best(o, s, k) == row_pref(o, s, i, s.len() as int),
        forall|i: int| 0 <= i < k ==> row_pref(o, s, i, s.len() as int) <= pref_best(o, s, k),
    decreases k,
{
    if k == 1 {
        lemma_row_pref_nonneg(o, s, 0, s.len() as int);
        assert(pref_best(o, s, 1) == row_pref(o, s, 0, s.len() as int));
    } else {
        lemma_pref_best_partial(o, s, k - 1);
        if row_pref(o, s, k - 1, s.len() as int) > pref_best(o, s, k - 1) {
            assert(pref_best(o, s, k) == row_pref(o, s, k - 1, s.len() as int));
        } else {
            let w = choose|i: int|
                0 <= i < k - 1 && pref_best(o, s, k - 1) == row_pref(o, s, i, s.len() as int);
            assert(pref_best(o, s, k) == row_pref(o, s, w, s.len() as int));
        }
    }
}

/// Relies on rayon: `into_par_iter().map(f).max()` over the row index
/// range returns the maximum of the mapped values, and None exactly for
/// an empty range.  The closure only calls the verified row search.
#[verifier::external_body]
fn par_rows_max(corners: &Vec<Point>, oracle: &ContainmentOracle) -> (r: Option<usize>)
    requires
        oracle.wf(),
        areas_fit(corners@),
    ensures
        r is Some <==> corners@.len() > 0,
        r matches Some(m) ==> exists|i: int|
            0 <= i < corners@.len() && m == row_pref(*oracle, corners@, i, corners@.len() as int),
        r matches Some(m) ==> forall|i: int|
            0 <= i < corners@.len() ==> row_pref(*oracle, corners@, i, corners@.len() as int)
                <= m,
{
    (0..corners.len()).into_par_iter().map(|i| row_best_area(corners, oracle, i)).max()
}

/// The parallel maximizer: rows of the pair space are validated in
/// parallel by rayon workers against the same immutable oracle, and the
/// results reduce to the global maximum.  It reports exactly what the
/// single-threaded search reports, whatever the scheduling.
pub fn part2_parallel(corners: &Vec<Point>, oracle: &ContainmentOracle) -> (r: Option<usize>)
    requires
        oracle.wf(),
        areas_fit(corners@),
    ensures
        r is Some <==> corners@.len() >= 2,
        r matches Some(m) ==> m == pref_best(*oracle, corners@, corners@.len() as int),
{
    let n = corners.len();
    if n < 2 {
        return None;
    }
    match par_rows_max(corners, oracle) {
        Some(m) => {
            proof {
                lemma_pref_best_partial(*oracle, corners@, n as int);
                let w = choose|i: int|
                    0 <= i < n && pref_best(*oracle, corners@, n as int) == row_pref(
                        *oracle,
                        corners@,
                        i,
                        corners@.len() as int,
                    );
                assert(row_pref(*oracle, corners@, w, corners@.len() as int) <= m);
                let wm = choose|i: int|
                    0 <= i < corners@.len() && m == row_pref(
                        *oracle,
                        corners@,
                        i,
                        corners@.len() as int,
                    );
                assert(row_pref(*oracle, corners@, wm, corners@.len() as int) <= pref_best(
                    *oracle,
                    corners@,
                    n as int,
                ));
            }
            Some(m)
        },
        None => {
            assert(false);
            None
        },
    }
}

/// Every rectangle the search reports as contained has every lattice
/// point of its four boundary edges inside the polygon according to the
/// containment oracle.
pub proof fn lemma_accepted_boundary_inside(o: ContainmentOracle, p: Point, q: Point)
    requires
        accepted(o, p, q),
    ensures
        rect_boundary_inside(o, p, q),
{
}

/// The pruned maximizer agrees with the unpruned brute force, provided
/// the bounding-box reject is sound for these corners: any pair whose
/// full boundary validates also fits in the polygon's bounding box.
/// (For a boundary built from a closed orthogonal polygon this always
/// holds; it is the standing assumption the search relies on.)
pub proof fn lemma_maximizer_matches_brute_force(o: ContainmentOracle, s: Seq<Point>)
    requires
        forall|i: int, j: int|
            0 <= i < s.len() && 0 <= j < s.len() ==> (#[trigger] validated(o, s[i], s[j]))
                ==> bbox_ok(o, s[i], s[j]),
    ensures
        pref_best(o, s, s.len() as int) == pref_best_bf(o, s, s.len() as int),
{
    lemma_pref_eq(o, s, s.len() as int);
}

proof fn lemma_row_pref_eq(o: ContainmentOracle, s: Seq<Point>, i: int, j: int)
    requires
        0 <= i < s.len(),
        j <= s.len(),
        forall|a: int, b: int|
            0 <= a < s.len() && 0 <= b < s.len() ==> (#[trigger] validated(o, s[a], s[b]))
                ==> bbox_ok(o, s[a], s[b]),
    ensures
        row_pref(o, s, i, j) == row_pref_bf(o, s, i, j),
    decreases j - i,
{
    if j > i + 1 {
        lemma_row_pref_eq(o, s, i, j - 1);
        assert(accepted_area(o, s[i], s[j - 1]) == validated_area(o, s[i], s[j - 1]));
    }
}

proof fn lemma_pref_eq(o: ContainmentOracle, s: Seq<Point>, i: int)
    requires
        i <= s.len(),
        forall|a: int, b: int|
            0 <= a < s.len() && 0 <= b < s.len() ==> (#[trigger] validated(o, s[a], s[b]))
                ==> bbox_ok(o, s[a], s[b]),
    ensures
        pref_best(o, s, i) == pref_best_bf(o, s, i),
    decreases i,
{
    if i > 0 {
        lemma_pref_eq(o, s, i - 1);
        lemma_row_pref_eq(o, s, i - 1, s.len() as int);
    }
}

/// Idempotence of the single-threaded maximizer: any two results that
/// meet its contract on the same corners and the same oracle are equal.
pub proof fn lemma_maximizer_idempotent(
    o: ContainmentOracle,
    s: Seq<Point>,
    r1: Option<usize>,
    r2: Option<usize>,
)
    requires
        r1 is Some <==> s.len() >= 2,
        r1 matches Some(m) ==> m == pref_best(o, s, s.len() as int),
        r2 is Some <==> s.len() >= 2,
        r2 matches Some(m) ==> m == pref_best(o, s, s.len() as int),
    ensures
        r1 == r2,
{
}

} // verus!
