use vstd::prelude::*;

verus! {

/// A grid cell, by column then row.
#[derive(PartialEq, Eq, Structural, Hash, Debug, Copy, Clone)]
pub struct Position(pub usize, pub usize);

/// Number of timelines at position p: the summed counts of the entries
/// with key p.
pub open spec fn bmap_get(bs: Seq<(Position, usize)>, p: Position) -> int
    decreases bs.len(),
{
    if bs.len() == 0 {
        0
    } else {
        bmap_get(bs.drop_last(), p) + (if bs.last().0 == p {
            bs.last().1 as int
        } else {
            0
        })
    }
}

/// Total number of timelines over all entries.
pub open spec fn bmap_total(bs: Seq<(Position, usize)>) -> int
    decreases bs.len(),
{
    if bs.len() == 0 {
        0
    } else {
        bmap_total(bs.drop_last()) + bs.last().1
    }
}

pub open spec fn keys_distinct(bs: Seq<(Position, usize)>) -> bool {
    forall|i: int, j: int|
        0 <= i < j < bs.len() ==> (#[trigger] bs[i]).0 != (#[trigger] bs[j]).0
}

proof fn lemma_get_le_total(bs: Seq<(Position, usize)>, p: Position)
    ensures
        0 <= bmap_get(bs, p) <= bmap_total(bs),
    decreases bs.len(),
{
    if bs.len() > 0 {
        lemma_get_le_total(bs.drop_last(), p);
    }
}

proof fn lemma_entry_le_get(bs: Seq<(Position, usize)>, i: int)
    requires
        0 <= i < bs.len(),
    ensures
        bs[i].1 <= bmap_get(bs, bs[i].0),
    decreases bs.len(),
{
    if i == bs.len() - 1 {
        lemma_get_le_total(bs.drop_last(), bs[i].0);
        assert(bs.last() == bs[i]);
    } else {
        let bl = bs.drop_last();
        assert(bl[i] == bs[i]);
        lemma_entry_le_get(bl, i);
        assert(bs.last() == bs[bs.len() - 1]);
    }
}

proof fn lemma_get_absent(bs: Seq<(Position, usize)>, p: Position)
    requires
        forall|i: int| 0 <= i < bs.len() ==> (#[trigger] bs[i]).0 != p,
    ensures
        bmap_get(bs, p) == 0,
    decreases bs.len(),
{
    if bs.len() > 0 {
        let bl = bs.drop_last();
        assert forall|i: int| 0 <= i < bl.len() implies (#[trigger] bl[i]).0 != p by {
            assert(bl[i] == bs[i]);
        }
        lemma_get_absent(bl, p);
        assert(bs.last() == bs[bs.len() - 1]);
    }
}

proof fn lemma_get_update(bs: Seq<(Position, usize)>, i: int, e: (Position, usize), q: Position)
    requires
        0 <= i < bs.len(),
        e.0 == bs[i].0,
    ensures
        bmap_get(bs.update(i, e), q) == bmap_get(bs, q) + (if q == e.0 {
            e.1 - bs[i].1
        } else {
            0
        }),
        bmap_total(bs.update(i, e)) == bmap_total(bs) + e.1 - bs[i].1,
    decreases bs.len(),
{
    let u = bs.update(i, e);
    if i == bs.len() - 1 {
        assert(u.drop_last() =~= bs.drop_last());
        assert(u.last() == e);
    } else {
        assert(u.drop_last() =~= bs.drop_last().update(i, e));
        lemma_get_update(bs.drop_last(), i, e, q);
        assert(u.last() == bs.last());
    }
}

/// The beam field: the splitter cells, the grid height, the live beams
/// with their timeline counts, and how many splits have happened.
pub struct BeamMap {
    pub splitters: Vec<Position>,
    pub height: usize,
    pub beams: Vec<(Position, usize)>,
    pub splits: usize,
}

/// Where a beam at pos travels next: straight down, or off the grid
/// (marked with a row of usize::MAX) when it leaves the bottom row.
pub open spec fn next_pos_spec(pos: Position, max_y: int) -> Position {
    if pos.1 >= max_y - 1 {
        Position(pos.0, usize::MAX)
    } else {
        Position(pos.0, (pos.1 + 1) as usize)
    }
}

pub open spec fn is_splitter(splitters: Seq<Position>, p: Position) -> bool {
    splitters.contains(p)
}

/// Timelines arriving at q after one step of the first k beams.
pub open spec fn step_get(
    splitters: Seq<Position>,
    h: int,
    beams: Seq<(Position, usize)>,
    k: int,
    q: Position,
) -> int
    decreases k,
{
    if k <= 0 {
        0
    } else {
        let (p, c) = beams[k - 1];
        let np = next_pos_spec(p, h);
        step_get(splitters, h, beams, k - 1, q) + (if is_splitter(splitters, np) {
            (if q == Position((np.0 - 1) as usize, np.1) {
                c as int
            } else {
                0
            }) + (if q == Position((np.0 + 1) as usize, np.1) {
                c as int
            } else {
                0
            })
        } else {
            (if q == np {
                c as int
            } else {
                0
            })
        })
    }
}

/// Number of the first k beams whose next cell is a splitter.
pub open spec fn split_count(
    splitters: Seq<Position>,
    h: int,
    beams: Seq<(Position, usize)>,
    k: int,
) -> int
    decreases k,
{
    if k <= 0 {
        0
    } else {
        split_count(splitters, h, beams, k - 1) + (if is_splitter(
            splitters,
            next_pos_spec(beams[k - 1].0, h),
        ) {
            1int
        } else {
            0
        })
    }
}

proof fn lemma_split_count_le(splitters: Seq<Position>, h: int, beams: Seq<(Position, usize)>, k: int)
    requires
        k >= 0,
    ensures
        0 <= split_count(splitters, h, beams, k) <= k,
    decreases k,
{
    if k > 0 {
        lemma_split_count_le(splitters, h, beams, k - 1);
    }
}

/// Total timelines among the first k beams.
pub open spec fn total_pref(beams: Seq<(Position, usize)>, k: int) -> int
    decreases k,
{
    if k <= 0 {
        0
    } else {
        total_pref(beams, k - 1) + beams[k - 1].1
    }
}

proof fn lemma_total_pref_nonneg(beams: Seq<(Position, usize)>, k: int)
    ensures
        0 <= total_pref(beams, k),
    decreases k,
{
    if k > 0 {
        lemma_total_pref_nonneg(beams, k - 1);
    }
}

proof fn lemma_total_pref_mono(beams: Seq<(Position, usize)>, k: int, e: int)
    requires
        0 <= k <= e,
    ensures
        0 <= total_pref(beams, k) <= total_pref(beams, e),
    decreases e - k,
{
    lemma_total_pref_nonneg(beams, k);
    if k < e {
        lemma_total_pref_mono(beams, k, e - 1);
    }
}

proof fn lemma_total_is_pref(beams: Seq<(Position, usize)>)
    ensures
        bmap_total(beams) == total_pref(beams, beams.len() as int),
    decreases beams.len(),
{
    if beams.len() > 0 {
        let bl = beams.drop_last();
        lemma_total_is_pref(bl);
        assert forall|k: int| 0 <= k <= bl.len() implies total_pref(bl, k) == total_pref(
            beams,
            k,
        ) by {
            lemma_total_pref_frame(bl, beams, k);
        }
        assert(beams.last() == beams[beams.len() - 1]);
    }
}

proof fn lemma_total_pref_frame(a: Seq<(Position, usize)>, b: Seq<(Position, usize)>, k: int)
    requires
        0 <= k <= a.len(),
        k <= b.len(),
        forall|i: int| 0 <= i < k ==> a[i] == b[i],
    ensures
        total_pref(a, k) == total_pref(b, k),
    decreases k,
{
    if k > 0 {
        lemma_total_pref_frame(a, b, k - 1);
    }
}

/// All beams have left the grid.
pub open spec fn all_exited(beams: Seq<(Position, usize)>) -> bool {
    forall|i: int| 0 <= i < beams.len() ==> (#[trigger] beams[i]).0.1 == usize::MAX
}

/// Adds c timelines at `key`, merging with an existing entry.
fn entry_add(v: &mut Vec<(Position, usize)>, key: Position, c: usize)
    requires
        keys_distinct(old(v)@),
        bmap_total(old(v)@) + c <= usize::MAX,
    ensures
        keys_distinct(final(v)@),
        bmap_total(final(v)@) == bmap_total(old(v)@) + c,
        forall|q: Position|
            #[trigger] bmap_get(final(v)@, q) == bmap_get(old(v)@, q) + (if q == key {
                c as int
            } else {
                0
            }),
{
    let n = v.len();
    let mut i: usize = 0;
    while i < n
        invariant
            n == v@.len(),
            i <= n,
            keys_distinct(v@),
            v@ == old(v)@,
            bmap_total(v@) + c <= usize::MAX,
            forall|k: int| 0 <= k < i ==> (#[trigger] v@[k]).0 != key,
        decreases n - i,
    {
        if v[i].0 == key {
            let cur = v[i].1;
            proof {
                lemma_entry_le_get(v@, i as int);
                lemma_get_le_total(v@, key);
            }
            v.set(i, (key, cur + c));
            proof {
                assert forall|q: Position|
                    #[trigger] bmap_get(v@, q) == bmap_get(old(v)@, q) + (if q == key {
                        c as int
                    } else {
                        0
                    }) by {
                    lemma_get_update(old(v)@, i as int, (key, (cur + c) as usize), q);
                }
                lemma_get_update(old(v)@, i as int, (key, (cur + c) as usize), key);
                assert forall|a: int, b: int|
                    0 <= a < b < v@.len() implies (#[trigger] v@[a]).0 != (
                #[trigger] v@[b]).0 by {
                    assert(old(v)@[a].0 != old(v)@[b].0);
                }
            }
            return;
        }
        i += 1;
    }
    let ghost prev = v@;
    v.push((key, c));
    proof {
        assert(v@.drop_last() =~= prev);
        assert(v@.last() == (key, c));
        assert forall|a: int, b: int| 0 <= a < b < v@.len() implies (#[trigger] v@[a]).0 != (
        #[trigger] v@[b]).0 by {
            if b == v@.len() - 1 {
                assert(v@[a] == prev[a]);
                assert(prev[a].0 != key);
            } else {
                assert(prev[a].0 != prev[b].0);
            }
        }
    }
}

impl BeamMap {
    pub open spec fn wf(self) -> bool {
        &&& self.height >= 1
        &&& keys_distinct(self.beams@)
        &&& forall|i: int|
            0 <= i < self.splitters@.len() ==> 1 <= (#[trigger] self.splitters@[i]).0
                < usize::MAX
    }

    /// Where the beam at pos goes next; a beam leaving the bottom row
    /// is marked with row usize::MAX.
    pub fn next_pos(pos: &Position, max_y: usize) -> (r: Position)
        requires
            max_y >= 1,
        ensures
            r == next_pos_spec(*pos, max_y as int),
    {
        if pos.1 >= max_y - 1 {
            Position(pos.0, usize::MAX)
        } else {
            Position(pos.0, pos.1 + 1)
        }
    }

    /// One synchronous step of every beam.  Returns true, changing
    /// nothing, once every beam has left the grid; otherwise advances
    /// each beam, splitting it around any splitter it hits.
    pub fn step(&mut self) -> (r: bool)
        requires
            old(self).wf(),
            2 * bmap_total(old(self).beams@) <= usize::MAX,
            old(self).splits + old(self).beams@.len() <= usize::MAX,
        ensures
            final(self).wf(),
            r == all_exited(old(self).beams@),
            r ==> *final(self) == *old(self),
            !r ==> final(self).splitters@ == old(self).splitters@ && final(self).height
                == old(self).height,
            !r ==> forall|q: Position|
                #[trigger] bmap_get(final(self).beams@, q) == step_get(
                    old(self).splitters@,
                    old(self).height as int,
                    old(self).beams@,
                    old(self).beams@.len() as int,
                    q,
                ),
            !r ==> final(self).splits == old(self).splits + split_count(
                old(self).splitters@,
                old(self).height as int,
                old(self).beams@,
                old(self).beams@.len() as int,
            ),
    {
        let n = self.beams.len();
        let mut all_out = true;
        let mut k: usize = 0;
        while k < n
            invariant
                n == self.beams@.len(),
                k <= n,
                *self == *old(self),
                all_out == (forall|i: int|
                    0 <= i < k ==> (#[trigger] self.beams@[i]).0.1 == usize::MAX),
            decreases n - k,
        {
            if self.beams[k].0 .1 != usize::MAX {
                all_out = false;
                proof {
                    assert(self.beams@[k as int].0.1 != usize::MAX);
                }
            }
            k += 1;
        }
        if all_out {
            return true;
        }
        let ghost spl = self.splitters@;
        let ghost h = self.height as int;
        let ghost obeams = self.beams@;
        let mut next: Vec<(Position, usize)> = Vec::new();
        let mut new_splits: usize = 0;
        let mut k: usize = 0;
        proof {
            lemma_total_is_pref(obeams);
        }
        while k < n
            invariant
                n == self.beams@.len(),
                k <= n,
                *self == *old(self),
                self.wf(),
                spl == self.splitters@,
                h == self.height as int,
                obeams == self.beams@,
                2 * bmap_total(obeams) <= usize::MAX,
                bmap_total(obeams) == total_pref(obeams, n as int),
                keys_distinct(next@),
                bmap_total(next@) <= 2 * total_pref(obeams, k as int),
                forall|q: Position|
                    #[trigger] bmap_get(next@, q) == step_get(spl, h, obeams, k as int, q),
                new_splits == split_count(spl, h, obeams, k as int),
                new_splits <= k,
            decreases n - k,
        {
            let (p, c) = self.beams[k];
            let np = Self::next_pos(&p, self.height);
            proof {
                lemma_total_pref_mono(obeams, k + 1, n as int);
                lemma_split_count_le(spl, h, obeams, k as int);
            }
            if contains_pos(&self.splitters, &np) {
                proof {
                    lemma_get_le_total(next@, Position((np.0 - 1) as usize, np.1));
                }
                entry_add(&mut next, Position(np.0 - 1, np.1), c);
                entry_add(&mut next, Position(np.0 + 1, np.1), c);
                new_splits += 1;
            } else {
                entry_add(&mut next, np, c);
            }
            k += 1;
        }
        self.beams = next;
        self.splits = self.splits + new_splits;
        false
    }
}

/// Linear membership scan.
fn contains_pos(v: &Vec<Position>, p: &Position) -> (r: bool)
    ensures
        r == v@.contains(*p),
{
    let n = v.len();
    let mut i: usize = 0;
    while i < n
        invariant
            n == v@.len(),
            i <= n,
            forall|k: int| 0 <= k < i ==> (#[trigger] v@[k]) != *p,
        decreases n - i,
    {
        if v[i] == *p {
            return true;
        }
        i += 1;
    }
    false
}

} // verus!
