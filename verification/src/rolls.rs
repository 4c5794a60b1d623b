use vstd::prelude::*;

verus! {

/// A grid cell, by column x and row y.
#[derive(PartialEq, Eq, Structural, Hash, Debug, Copy, Clone)]
pub struct Position {
    pub x: i32,
    pub y: i32,
}

/// The warehouse: the distinct cells holding a paper roll, and the
/// grid size.
pub struct RollMap {
    pub rolls: Vec<Position>,
    pub x_size: usize,
    pub y_size: usize,
}

/// Column of the k-th of the eight neighbours of p, scanned left,
/// up, right, down, then the four diagonals.
pub open spec fn nb_x(p: Position, k: int) -> int {
    if k == 0 || k == 4 || k == 5 {
        p.x - 1
    } else if k == 2 || k == 6 || k == 7 {
        p.x + 1
    } else {
        p.x as int
    }
}

pub open spec fn nb_y(p: Position, k: int) -> int {
    if k == 1 || k == 4 || k == 6 {
        p.y - 1
    } else if k == 3 || k == 5 || k == 7 {
        p.y + 1
    } else {
        p.y as int
    }
}

impl RollMap {
    pub open spec fn wf(self) -> bool {
        &&& self.x_size <= i32::MAX
        &&& self.y_size <= i32::MAX
        &&& forall|i: int|
            0 <= i < self.rolls@.len() ==> 0 <= (#[trigger] self.rolls@[i]).x < self.x_size && 0
                <= self.rolls@[i].y < self.y_size
        &&& forall|i: int, j: int|
            0 <= i < j < self.rolls@.len() ==> (#[trigger] self.rolls@[i]) != (
            #[trigger] self.rolls@[j])
    }

    /// A cell with the given coordinates holds a roll.
    pub open spec fn roll_at(self, xx: int, yy: int) -> bool {
        exists|i: int|
            0 <= i < self.rolls@.len() && (#[trigger] self.rolls@[i]).x == xx
                && self.rolls@[i].y == yy
    }

    /// The coordinates lie on the grid.
    pub open spec fn valid_at(self, xx: int, yy: int) -> bool {
        0 <= xx < self.x_size && 0 <= yy < self.y_size
    }

    /// Number of the first k neighbour cells of p that are on the grid
    /// and hold a roll.
    pub open spec fn nbr_count(self, p: Position, k: int) -> int
        decreases k,
    {
        if k <= 0 {
            0
        } else {
            self.nbr_count(p, k - 1) + (if self.valid_at(nb_x(p, k - 1), nb_y(p, k - 1))
                && self.roll_at(nb_x(p, k - 1), nb_y(p, k - 1)) {
                1int
            } else {
                0
            })
        }
    }

    proof fn lemma_nbr_count_bound(self, p: Position, k: int)
        ensures
            0 <= self.nbr_count(p, k) <= (if k >= 0 { k } else { 0 }),
        decreases k,
    {
        if k > 0 {
            self.lemma_nbr_count_bound(p, k - 1);
        }
    }

    /// A roll is accessible when fewer than four of its eight
    /// neighbour cells hold a roll.
    pub open spec fn accessible(self, p: Position) -> bool {
        self.nbr_count(p, 8) < 4
    }

    pub fn is_valid(&self, pos: &Position) -> (r: bool)
        requires
            self.wf(),
        ensures
            r == self.valid_at(pos.x as int, pos.y as int),
    {
        pos.x >= 0 && pos.x < self.x_size as i32 && pos.y >= 0 && pos.y < self.y_size as i32
    }

    /// The neighbour cells of pos that lie on the grid, in scan order.
    pub fn get_adjacent(&self, pos: &Position) -> (r: Vec<Position>)
        requires
            self.wf(),
            i32::MIN < pos.x < i32::MAX,
            i32::MIN < pos.y < i32::MAX,
        ensures
            r@ == self.adjacent_pref(*pos, 8),
    {
        let mut out: Vec<Position> = Vec::new();
        let mut k: usize = 0;
        while k < 8
            invariant
                self.wf(),
                i32::MIN < pos.x < i32::MAX,
                i32::MIN < pos.y < i32::MAX,
                k <= 8,
                out@ == self.adjacent_pref(*pos, k as int),
            decreases 8 - k,
        {
            let c = neighbor(pos, k);
            if self.is_valid(&c) {
                out.push(c);
                proof {
                    assert(out@ =~= self.adjacent_pref(*pos, k + 1));
                }
            } else {
                proof {
                    assert(out@ =~= self.adjacent_pref(*pos, k + 1));
                }
            }
            k += 1;
        }
        out
    }

    /// The grid-valid neighbours among the first k, in order.
    pub open spec fn adjacent_pref(self, p: Position, k: int) -> Seq<Position>
        decreases k,
    {
        if k <= 0 {
            Seq::empty()
        } else {
            self.adjacent_pref(p, k - 1) + (if self.valid_at(nb_x(p, k - 1), nb_y(p, k - 1)) {
                seq![Position { x: nb_x(p, k - 1) as i32, y: nb_y(p, k - 1) as i32 }]
            } else {
                Seq::empty()
            })
        }
    }

    /// The accessible rolls, in storage order.
    pub fn count_accessible(&self) -> (r: Vec<Position>)
        requires
            self.wf(),
        ensures
            forall|q: Position|
                #[trigger] r@.contains(q) <==> (self.rolls@.contains(q) && self.accessible(q)),
            forall|m1: int, m2: int|
                0 <= m1 < m2 < r@.len() ==> (#[trigger] r@[m1]) != (#[trigger] r@[m2]),
    {
        let n = self.rolls.len();
        let mut out: Vec<Position> = Vec::new();
        let mut idx: usize = 0;
        while idx < n
            invariant
                self.wf(),
                n == self.rolls@.len(),
                idx <= n,
                forall|q: Position|
                    #[trigger] out@.contains(q) <==> ((exists|i: int|
                        0 <= i < idx && (#[trigger] self.rolls@[i]) == q) && self.accessible(q)),
                forall|m: int|
                    0 <= m < out@.len() ==> exists|i: int|
                        0 <= i < idx && (#[trigger] out@[m]) == self.rolls@[i],
                forall|m1: int, m2: int| 0 <= m1 < m2 < out@.len() ==> out@[m1] != out@[m2],
            decreases n - idx,
        {
            let roll = self.rolls[idx];
            let mut cnt: usize = 0;
            let mut k: usize = 0;
            while k < 8
                invariant
                    self.wf(),
                    n == self.rolls@.len(),
                    idx < n,
                    roll == self.rolls@[idx as int],
                    k <= 8,
                    cnt == self.nbr_count(roll, k as int),
                decreases 8 - k,
            {
                proof {
                    self.lemma_nbr_count_bound(roll, k as int);
                }
                let c = neighbor(&roll, k);
                if self.is_valid(&c) && contains_position(&self.rolls, c.x, c.y) {
                    cnt += 1;
                }
                k += 1;
            }
            let ghost prev = out@;
            if cnt < 4 {
                out.push(roll);
                proof {
                    assert forall|q: Position| #[trigger] out@.contains(q) implies ((exists|i: int|
                        0 <= i < idx + 1 && (#[trigger] self.rolls@[i]) == q)
                        && self.accessible(q)) by {
                        let m = choose|m: int| 0 <= m < out@.len() && out@[m] == q;
                        if m < prev.len() {
                            assert(prev.contains(q));
                        } else {
                            assert(q == roll);
                        }
                    }
                    assert forall|q: Position|
                        ((exists|i: int| 0 <= i < idx + 1 && (#[trigger] self.rolls@[i]) == q)
                            && self.accessible(q)) implies #[trigger] out@.contains(q) by {
                        let i = choose|i: int| 0 <= i < idx + 1 && self.rolls@[i] == q;
                        if i < idx {
                            assert(prev.contains(q));
                            let m = choose|m: int| 0 <= m < prev.len() && prev[m] == q;
                            assert(out@[m] == q);
                        } else {
                            assert(out@[out@.len() - 1] == q);
                        }
                    }
                    assert forall|m: int| 0 <= m < out@.len() implies exists|i: int|
                        0 <= i < idx + 1 && (#[trigger] out@[m]) == self.rolls@[i] by {
                        if m < prev.len() {
                            let i = choose|i: int| 0 <= i < idx && prev[m] == self.rolls@[i];
                            assert(out@[m] == self.rolls@[i]);
                        } else {
                            assert(out@[m] == self.rolls@[idx as int]);
                        }
                    }
                    assert forall|m1: int, m2: int| 0 <= m1 < m2 < out@.len() implies out@[m1]
                        != out@[m2] by {
                        if m2 == out@.len() - 1 {
                            let i = choose|i: int| 0 <= i < idx && prev[m1] == self.rolls@[i];
                            assert(self.rolls@[i] != self.rolls@[idx as int]);
                        } else {
                            assert(prev[m1] != prev[m2]);
                        }
                    }
                }
            } else {
                proof {
                    assert forall|q: Position| #[trigger] out@.contains(q) implies ((exists|i: int|
                        0 <= i < idx + 1 && (#[trigger] self.rolls@[i]) == q)
                        && self.accessible(q)) by {}
                    assert forall|q: Position|
                        ((exists|i: int| 0 <= i < idx + 1 && (#[trigger] self.rolls@[i]) == q)
                            && self.accessible(q)) implies #[trigger] out@.contains(q) by {
                        let i = choose|i: int| 0 <= i < idx + 1 && self.rolls@[i] == q;
                        assert(i < idx);
                    }
                }
            }
            idx += 1;
        }
        proof {
            assert forall|q: Position|
                #[trigger] out@.contains(q) <==> (self.rolls@.contains(q) && self.accessible(
                    q,
                )) by {
                if out@.contains(q) {
                    let i = choose|i: int| 0 <= i < idx && (#[trigger] self.rolls@[i]) == q;
                    assert(self.rolls@.contains(q));
                }
                if self.rolls@.contains(q) && self.accessible(q) {
                    let i = choose|i: int|
                        0 <= i < self.rolls@.len() && self.rolls@[i] == q;
                    assert(0 <= i < idx && (#[trigger] self.rolls@[i]) == q);
                }
            }
        }
        out
    }

    /// Removes accessible rolls, in rounds, until none is accessible;
    /// returns how many rolls were removed in all.
    pub fn remove_accessible(&mut self) -> (r: usize)
        requires
            old(self).wf(),
        ensures
            final(self).wf(),
            final(self).x_size == old(self).x_size && final(self).y_size == old(self).y_size,
            r == old(self).rolls@.len() - final(self).rolls@.len(),
            forall|q: Position|
                #[trigger] final(self).rolls@.contains(q) ==> old(self).rolls@.contains(q),
            forall|q: Position|
                #[trigger] final(self).rolls@.contains(q) ==> !final(self).accessible(q),
    {
        let ghost orig = *old(self);
        let orig_len = self.rolls.len();
        let mut removed: usize = 0;
        let mut acc = self.count_accessible();
        while acc.len() > 0
            invariant
                self.wf(),
                self.x_size == orig.x_size && self.y_size == orig.y_size,
                orig_len == orig.rolls@.len(),
                self.rolls@.len() + removed == orig_len,
                forall|q: Position|
                    #[trigger] self.rolls@.contains(q) ==> orig.rolls@.contains(q),
                forall|q: Position|
                    #[trigger] acc@.contains(q) <==> (self.rolls@.contains(q) && self.accessible(
                        q,
                    )),
            decreases self.rolls@.len(),
        {
            let n = self.rolls.len();
            let mut kept: Vec<Position> = Vec::new();
            let mut k: usize = 0;
            while k < n
                invariant
                    self.wf(),
                    n == self.rolls@.len(),
                    k <= n,
                    kept@.len() <= k,
                    (exists|j: int|
                        0 <= j < k && acc@.contains(#[trigger] self.rolls@[j])) ==> kept@.len()
                        < k,
                    forall|m: int|
                        0 <= m < kept@.len() ==> exists|i: int|
                            0 <= i < k && (#[trigger] kept@[m]) == self.rolls@[i],
                    forall|m1: int, m2: int|
                        0 <= m1 < m2 < kept@.len() ==> (#[trigger] kept@[m1]) != (
                        #[trigger] kept@[m2]),
                    forall|q: Position|
                        #[trigger] kept@.contains(q) <==> ((exists|i: int|
                            0 <= i < k && (#[trigger] self.rolls@[i]) == q) && !acc@.contains(
                            q,
                        )),
                decreases n - k,
            {
                let roll = self.rolls[k];
                let ghost prev = kept@;
                if !contains_exact(&acc, &roll) {
                    proof {
                        assert(!prev.contains(roll)) by {
                            if prev.contains(roll) {
                                let m = choose|m: int|
                                    0 <= m < prev.len() && prev[m] == roll;
                                let i = choose|i: int|
                                    0 <= i < k && prev[m] == self.rolls@[i];
                                assert(self.rolls@[i] != self.rolls@[k as int]);
                            }
                        }
                    }
                    kept.push(roll);
                    proof {
                        assert forall|q: Position| #[trigger] kept@.contains(q) implies ((exists|
                            i: int,
                        |
                            0 <= i < k + 1 && (#[trigger] self.rolls@[i]) == q)
                            && !acc@.contains(q)) by {
                            let m = choose|m: int| 0 <= m < kept@.len() && kept@[m] == q;
                            if m < prev.len() {
                                assert(prev.contains(q));
                            } else {
                                assert(q == roll);
                            }
                        }
                        assert forall|q: Position|
                            ((exists|i: int|
                                0 <= i < k + 1 && (#[trigger] self.rolls@[i]) == q)
                                && !acc@.contains(q)) implies #[trigger] kept@.contains(q) by {
                            let i = choose|i: int| 0 <= i < k + 1 && self.rolls@[i] == q;
                            if i < k {
                                assert(prev.contains(q));
                                let m = choose|m: int| 0 <= m < prev.len() && prev[m] == q;
                                assert(kept@[m] == q);
                            } else {
                                assert(kept@[kept@.len() - 1] == q);
                            }
                        }
                        assert forall|m: int| 0 <= m < kept@.len() implies exists|i: int|
                            0 <= i < k + 1 && (#[trigger] kept@[m]) == self.rolls@[i] by {
                            if m < prev.len() {
                                let i = choose|i: int| 0 <= i < k && prev[m] == self.rolls@[i];
                                assert(kept@[m] == self.rolls@[i]);
                            } else {
                                assert(kept@[m] == self.rolls@[k as int]);
                            }
                        }
                        assert forall|m1: int, m2: int|
                            0 <= m1 < m2 < kept@.len() implies (#[trigger] kept@[m1]) != (
                        #[trigger] kept@[m2]) by {
                            if m2 == kept@.len() - 1 {
                                assert(kept@[m1] == prev[m1]);
                                assert(prev.contains(prev[m1]));
                                assert(kept@[m2] == roll);
                            } else {
                                assert(prev[m1] != prev[m2]);
                            }
                        }
                    }
                } else {
                    proof {
                        assert(acc@.contains(self.rolls@[k as int]));
                        assert forall|q: Position|
                            ((exists|i: int|
                                0 <= i < k + 1 && (#[trigger] self.rolls@[i]) == q)
                                && !acc@.contains(q)) implies #[trigger] kept@.contains(q) by {
                            let i = choose|i: int| 0 <= i < k + 1 && self.rolls@[i] == q;
                            assert(i < k);
                        }
                    }
                }
                k += 1;
            }
            proof {
                assert(acc@.contains(acc@[0]));
                assert(self.rolls@.contains(acc@[0]));
                let j0 = choose|j: int|
                    0 <= j < self.rolls@.len() && self.rolls@[j] == acc@[0];
                assert(acc@.contains(self.rolls@[j0]));
                assert(kept@.len() < n);
                assert forall|i: int| 0 <= i < kept@.len() implies 0 <= (
                #[trigger] kept@[i]).x < self.x_size && 0 <= kept@[i].y < self.y_size by {
                    let w = choose|w: int| 0 <= w < n && kept@[i] == self.rolls@[w];
                    assert(0 <= self.rolls@[w].x < self.x_size);
                }
                assert forall|q: Position| #[trigger] kept@.contains(q) implies orig.rolls@.contains(
                    q,
                ) by {
                    let i = choose|i: int| 0 <= i < n && self.rolls@[i] == q;
                    assert(self.rolls@.contains(q));
                }
            }
            removed = removed + (n - kept.len());
            self.rolls = kept;
            acc = self.count_accessible();
        }
        proof {
            assert forall|q: Position| #[trigger] self.rolls@.contains(q) implies !self.accessible(
                q,
            ) by {
                if self.accessible(q) {
                    assert(acc@.contains(q));
                    let m = choose|m: int| 0 <= m < acc@.len() && acc@[m] == q;
                }
            }
        }
        removed
    }
}

/// The k-th neighbour cell, in scan order.
fn neighbor(pos: &Position, k: usize) -> (r: Position)
    requires
        k < 8,
        i32::MIN < pos.x < i32::MAX,
        i32::MIN < pos.y < i32::MAX,
    ensures
        r.x == nb_x(*pos, k as int) && r.y == nb_y(*pos, k as int),
{
    if k == 0 {
        Position { x: pos.x - 1, y: pos.y }
    } else if k == 1 {
        Position { x: pos.x, y: pos.y - 1 }
    } else if k == 2 {
        Position { x: pos.x + 1, y: pos.y }
    } else if k == 3 {
        Position { x: pos.x, y: pos.y + 1 }
    } else if k == 4 {
        Position { x: pos.x - 1, y: pos.y - 1 }
    } else if k == 5 {
        Position { x: pos.x - 1, y: pos.y + 1 }
    } else if k == 6 {
        Position { x: pos.x + 1, y: pos.y - 1 }
    } else {
        Position { x: pos.x + 1, y: pos.y + 1 }
    }
}

/// Linear scan for a cell with the given coordinates.
fn contains_position(v: &Vec<Position>, xx: i32, yy: i32) -> (r: bool)
    ensures
        r == exists|i: int|
            0 <= i < v@.len() && (#[trigger] v@[i]).x == xx && v@[i].y == yy,
{
    let n = v.len();
    let mut i: usize = 0;
    while i < n
        invariant
            n == v@.len(),
            i <= n,
            forall|k: int| 0 <= k < i ==> !((#[trigger] v@[k]).x == xx && v@[k].y == yy),
        decreases n - i,
    {
        if v[i].x == xx && v[i].y == yy {
            return true;
        }
        i += 1;
    }
    false
}

/// Linear scan for exactly this cell.
fn contains_exact(v: &Vec<Position>, p: &Position) -> (r: bool)
    ensures
        r == v@.contains(*p),
{
    let n = v.len();
    let mut i: usize = 0;
    while i < n
        invariant
            n == v@.len(),
            i <= n,
            forall|k: int| 0 <= k < i ==> (#[trigger] v@[k]) != *p,
        decreases n - i,
    {
        if v[i].x == p.x && v[i].y == p.y {
            return true;
        }
        i += 1;
    }
    false
}

} // verus!
