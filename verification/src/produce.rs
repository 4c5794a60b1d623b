use vstd::prelude::*;
use crate::parsing::{all_digits, digits_value, find_char, find_char_str, parse_usize_str};

verus! {

/// A parse failure of a range line.
#[derive(PartialEq, Eq, Structural, Debug, Copy, Clone)]
pub enum RangeParseError {
    BadNumber,
}

/// An inclusive range of ingredient codes.
#[derive(PartialEq, Eq, Structural, Hash, Debug, Copy, Clone)]
pub struct Range {
    pub start: usize,
    pub end: usize,
}

/// The parse of one digit run, as `from_str` sees it: the characters
/// must be a nonempty run of digits whose value fits a usize.
pub open spec fn parse_piece(s: Seq<char>, from: int, to: int) -> Option<int> {
    if from < to && all_digits(s.subrange(from, to)) && digits_value(s.subrange(from, to))
        <= usize::MAX {
        Some(digits_value(s.subrange(from, to)))
    } else {
        None
    }
}

/// What `Range::from_str` parses out of a line "start-end": the piece
/// before the first dash and the piece between the first and second
/// dash (or the end of the line).
pub open spec fn parse_range_spec(s: Seq<char>) -> Option<Range> {
    let d1 = find_char(s, '-', 0);
    let d2 = find_char(s, '-', d1 + 1);
    match (parse_piece(s, 0, d1), parse_piece(s, d1 + 1, d2)) {
        (Some(a), Some(b)) => Some(Range { start: a as usize, end: b as usize }),
        _ => None,
    }
}

impl Range {
    /// The integers this range covers; an inverted range covers none.
    pub open spec fn covers(self, n: int) -> bool {
        self.start <= n <= self.end
    }

    pub open spec fn valid(self) -> bool {
        self.start <= self.end
    }

    pub fn new(start: usize, end: usize) -> (r: Range)
        ensures
            r.start == start && r.end == end,
    {
        Range { start, end }
    }

    /// Parses "start-end"; everything after a second dash is ignored.
    /// The line must contain a dash.
    pub fn from_str(s: &str) -> (r: Result<Range, RangeParseError>)
        requires
            find_char(s@, '-', 0) < s@.len(),
        ensures
            r is Ok <==> parse_range_spec(s@) is Some,
            r matches Ok(v) ==> parse_range_spec(s@) == Some(v),
    {
        let n = s.unicode_len();
        let d1 = find_char_str(s, '-', 0);
        proof {
            crate::parsing::lemma_find_char_props(s@, '-', 0);
        }
        let d2 = find_char_str(s, '-', d1 + 1);
        proof {
            crate::parsing::lemma_find_char_props(s@, '-', d1 as int + 1);
        }
        let a = match parse_usize_str(s, 0, d1) {
            Some(a) => a,
            None => {
                return Err(RangeParseError::BadNumber);
            },
        };
        let b = match parse_usize_str(s, d1 + 1, d2) {
            Some(b) => b,
            None => {
                return Err(RangeParseError::BadNumber);
            },
        };
        Ok(Range { start: a, end: b })
    }

    pub fn contains_val(&self, n: usize) -> (r: bool)
        ensures
            r == self.covers(n as int),
    {
        n >= self.start && n <= self.end
    }

    pub fn contains_range(&self, other: &Range) -> (r: bool)
        ensures
            r == (self.covers(other.start as int) && self.covers(other.end as int)),
    {
        self.contains_val(other.start) && self.contains_val(other.end)
    }

    /// The merged span of two ranges that touch or overlap; None when
    /// they are apart, or when the merged span would be inverted.
    pub fn overlap(&self, other: &Range) -> (r: Option<Range>)
        ensures
            r == overlap_spec(*self, *other),
    {
        if self.end < other.start || self.start > other.end {
            return None;
        }
        let potential = Range::new(
            if self.start <= other.start {
                self.start
            } else {
                other.start
            },
            if self.end >= other.end {
                self.end
            } else {
                other.end
            },
        );
        if potential.is_valid() {
            Some(potential)
        } else {
            None
        }
    }

    pub fn is_valid(&self) -> (r: bool)
        ensures
            r == self.valid(),
    {
        self.start <= self.end
    }

    /// Number of integers covered.
    pub fn size(&self) -> (r: usize)
        requires
            self.valid(),
            self.end - self.start + 1 <= usize::MAX,
        ensures
            r == self.end - self.start + 1,
    {
        self.end - self.start + 1
    }
}

pub open spec fn overlap_spec(a: Range, b: Range) -> Option<Range> {
    if a.end < b.start || a.start > b.end {
        None
    } else {
        let m = Range {
            start: if a.start <= b.start {
                a.start
            } else {
                b.start
            },
            end: if a.end >= b.end {
                a.end
            } else {
                b.end
            },
        };
        if m.start <= m.end {
            Some(m)
        } else {
            None
        }
    }
}

/// What `merge_ranges` returns: the stored ranges are exactly those on
/// which every pairwise merge fails.
pub open spec fn merge_spec(a: Range, b: Range) -> Option<Range> {
    if a == b {
        Some(a)
    } else if a.covers(b.start as int) && a.covers(b.end as int) {
        Some(a)
    } else if b.covers(a.start as int) && b.covers(a.end as int) {
        Some(b)
    } else {
        overlap_spec(a, b)
    }
}

/// Two ranges with a gap between them (in either order).
pub open spec fn range_disjoint(a: Range, b: Range) -> bool {
    a.end < b.start || b.end < a.start
}

proof fn lemma_merge_none_disjoint(a: Range, b: Range)
    requires
        merge_spec(a, b) is None,
    ensures
        range_disjoint(a, b),
{
}

proof fn lemma_merge_covers(a: Range, b: Range, u: Range)
    requires
        a.valid(),
        b.valid(),
        merge_spec(a, b) == Some(u),
    ensures
        u.valid(),
        forall|n: int| u.covers(n) <==> (a.covers(n) || b.covers(n)),
{
}

proof fn lemma_disjoint_grow(k: Range, m: Range, cur: Range, u: Range)
    requires
        k.valid(),
        m.valid(),
        cur.valid(),
        range_disjoint(k, cur),
        range_disjoint(k, m),
        merge_spec(m, cur) == Some(u),
    ensures
        range_disjoint(k, u),
{
}

/// Some range among the first k of `s` covers n.
pub open spec fn covers_prefix(s: Seq<Range>, k: int, n: int) -> bool {
    exists|i: int| 0 <= i < k && (#[trigger] s[i]).covers(n)
}

/// The freshness checker: a set of pairwise disjoint valid ranges of
/// fresh ingredient codes.
pub struct ProduceChecker {
    pub ranges: Vec<Range>,
}

impl ProduceChecker {
    pub open spec fn wf(self) -> bool {
        &&& forall|i: int| 0 <= i < self.ranges@.len() ==> (#[trigger] self.ranges@[i]).valid()
        &&& forall|i: int, j: int|
            0 <= i < j < self.ranges@.len() ==> range_disjoint(
                #[trigger] self.ranges@[i],
                #[trigger] self.ranges@[j],
            )
    }

    /// An ingredient is fresh iff some stored range covers it.
    pub open spec fn covers(self, n: int) -> bool {
        exists|i: int| 0 <= i < self.ranges@.len() && (#[trigger] self.ranges@[i]).covers(n)
    }

    pub fn new() -> (r: ProduceChecker)
        ensures
            r.wf(),
            r.ranges@.len() == 0,
            forall|n: int| !r.covers(n),
    {
        ProduceChecker { ranges: Vec::new() }
    }

    pub fn merge_ranges(range0: &Range, range1: &Range) -> (r: Option<Range>)
        ensures
            r == merge_spec(*range0, *range1),
    {
        if range0 == range1 {
            return Some(*range0);
        }
        if range0.contains_range(range1) {
            return Some(*range0);
        }
        if range1.contains_range(range0) {
            return Some(*range1);
        }
        range0.overlap(range1)
    }

    /// Adds a range, merging it with every stored range it touches;
    /// afterwards the checker covers exactly what it covered before
    /// plus the new range.
    pub fn add_range(&mut self, range: &Range)
        requires
            old(self).wf(),
            range.valid(),
        ensures
            final(self).wf(),
            forall|n: int| #[trigger] final(self).covers(n) <==> (old(self).covers(n)
                || range.covers(n)),
    {
        let ghost orig = self.ranges@;
        let n = self.ranges.len();
        let mut kept: Vec<Range> = Vec::new();
        let mut cur = *range;
        let mut k: usize = 0;
        while k < n
            invariant
                orig == self.ranges@,
                n == orig.len(),
                k <= n,
                cur.valid(),
                forall|i: int| 0 <= i < orig.len() ==> (#[trigger] orig[i]).valid(),
                forall|i: int, j: int|
                    0 <= i < j < orig.len() ==> range_disjoint(
                        #[trigger] orig[i],
                        #[trigger] orig[j],
                    ),
                forall|m: int|
                    0 <= m < kept@.len() ==> exists|i: int|
                        0 <= i < k && #[trigger] kept@[m] == orig[i],
                forall|m: int| 0 <= m < kept@.len() ==> (#[trigger] kept@[m]).valid(),
                forall|m1: int, m2: int|
                    0 <= m1 < m2 < kept@.len() ==> range_disjoint(
                        #[trigger] kept@[m1],
                        #[trigger] kept@[m2],
                    ),
                forall|m: int|
                    0 <= m < kept@.len() ==> range_disjoint(#[trigger] kept@[m], cur),
                forall|nn: int|
                    (covers_prefix(orig, k as int, nn) || range.covers(nn)) <==> (covers_prefix(
                        kept@,
                        kept@.len() as int,
                        nn,
                    ) || cur.covers(nn)),
            decreases n - k,
        {
            let existing = self.ranges[k];
            let ghost prev_kept = kept@;
            let ghost prev_cur = cur;
            assert(existing == orig[k as int]);
            match Self::merge_ranges(&existing, &cur) {
                Some(merged) => {
                    proof {
                        lemma_merge_covers(existing, prev_cur, merged);
                        assert forall|m: int| 0 <= m < kept@.len() implies range_disjoint(
                            #[trigger] kept@[m],
                            merged,
                        ) by {
                            let i = choose|i: int| 0 <= i < k && kept@[m] == orig[i];
                            assert(range_disjoint(orig[i], orig[k as int]));
                            lemma_disjoint_grow(kept@[m], existing, prev_cur, merged);
                        }
                        assert forall|nn: int|
                            (covers_prefix(orig, k + 1, nn) || range.covers(nn)) <==> (
                            covers_prefix(prev_kept, prev_kept.len() as int, nn)
                                || merged.covers(nn)) by {
                            if covers_prefix(orig, k + 1, nn) {
                                let i = choose|i: int|
                                    0 <= i < k + 1 && (#[trigger] orig[i]).covers(nn);
                                if i < k {
                                    assert(covers_prefix(orig, k as int, nn));
                                } else {
                                    assert(existing.covers(nn));
                                }
                            }
                            if merged.covers(nn) {
                                if existing.covers(nn) {
                                    assert(orig[k as int].covers(nn));
                                    assert(covers_prefix(orig, k + 1, nn));
                                }
                            }
                            if covers_prefix(orig, k as int, nn) {
                                let i = choose|i: int|
                                    0 <= i < k && (#[trigger] orig[i]).covers(nn);
                                assert(covers_prefix(orig, k + 1, nn));
                            }
                        }
                    }
                    cur = merged;
                },
                None => {
                    proof {
                        lemma_merge_none_disjoint(existing, prev_cur);
                        assert forall|m1: int, m2: int|
                            0 <= m1 < m2 < prev_kept.push(existing).len() implies range_disjoint(
                            #[trigger] prev_kept.push(existing)[m1],
                            #[trigger] prev_kept.push(existing)[m2],
                        ) by {
                            if m2 < prev_kept.len() {
                                assert(range_disjoint(prev_kept[m1], prev_kept[m2]));
                            } else {
                                assert(prev_kept.push(existing)[m1] == prev_kept[m1]);
                                let i = choose|i: int| 0 <= i < k && prev_kept[m1] == orig[i];
                                assert(range_disjoint(orig[i], orig[k as int]));
                            }
                        }
                    }
                    kept.push(existing);
                    proof {
                        assert forall|m: int| 0 <= m < kept@.len() implies exists|i: int|
                            0 <= i < k + 1 && #[trigger] kept@[m] == orig[i] by {
                            if m < kept@.len() - 1 {
                                assert(kept@[m] == prev_kept[m]);
                                let i = choose|i: int| 0 <= i < k && prev_kept[m] == orig[i];
                                assert(kept@[m] == orig[i]);
                            } else {
                                assert(kept@[m] == orig[k as int]);
                            }
                        }
                        assert forall|nn: int|
                            (covers_prefix(orig, k + 1, nn) || range.covers(nn)) <==> (
                            covers_prefix(kept@, kept@.len() as int, nn) || cur.covers(nn)) by {
                            if covers_prefix(orig, k + 1, nn) {
                                let i = choose|i: int|
                                    0 <= i < k + 1 && (#[trigger] orig[i]).covers(nn);
                                if i < k {
                                    assert(covers_prefix(orig, k as int, nn));
                                    if covers_prefix(prev_kept, prev_kept.len() as int, nn) {
                                        let m = choose|m: int|
                                            0 <= m < prev_kept.len() && (
                                            #[trigger] prev_kept[m]).covers(nn);
                                        assert(kept@[m].covers(nn));
                                        assert(covers_prefix(kept@, kept@.len() as int, nn));
                                    }
                                } else {
                                    assert(kept@[kept@.len() - 1].covers(nn));
                                    assert(covers_prefix(kept@, kept@.len() as int, nn));
                                }
                            }
                            if range.covers(nn) {
                                if covers_prefix(prev_kept, prev_kept.len() as int, nn) {
                                    let m = choose|m: int|
                                        0 <= m < prev_kept.len() && (
                                        #[trigger] prev_kept[m]).covers(nn);
                                    assert(kept@[m].covers(nn));
                                    assert(covers_prefix(kept@, kept@.len() as int, nn));
                                }
                            }
                            if covers_prefix(kept@, kept@.len() as int, nn) {
                                let m = choose|m: int|
                                    0 <= m < kept@.len() && (#[trigger] kept@[m]).covers(nn);
                                if m < prev_kept.len() {
                                    assert(prev_kept[m].covers(nn));
                                    assert(covers_prefix(prev_kept, prev_kept.len() as int, nn));
                                    assert(covers_prefix(orig, k as int, nn) || range.covers(nn));
                                    if covers_prefix(orig, k as int, nn) {
                                        let i = choose|i: int|
                                            0 <= i < k && (#[trigger] orig[i]).covers(nn);
                                        assert(covers_prefix(orig, k + 1, nn));
                                    }
                                } else {
                                    assert(existing.covers(nn));
                                    assert(orig[k as int].covers(nn));
                                    assert(covers_prefix(orig, k + 1, nn));
                                }
                            } else if cur.covers(nn) {
                                assert(covers_prefix(orig, k as int, nn) || range.covers(nn));
                                if covers_prefix(orig, k as int, nn) {
                                    let i = choose|i: int|
                                        0 <= i < k && (#[trigger] orig[i]).covers(nn);
                                    assert(covers_prefix(orig, k + 1, nn));
                                }
                            }
                        }
                    }
                },
            }
            k += 1;
        }
        let ghost final_kept = kept@;
        kept.push(cur);
        proof {
            assert forall|m1: int, m2: int| 0 <= m1 < m2 < kept@.len() implies range_disjoint(
                #[trigger] kept@[m1],
                #[trigger] kept@[m2],
            ) by {
                if m2 < kept@.len() - 1 {
                    assert(range_disjoint(final_kept[m1], final_kept[m2]));
                } else {
                    assert(kept@[m1] == final_kept[m1]);
                    assert(range_disjoint(final_kept[m1], cur));
                    assert(kept@[m2] == cur);
                }
            }
        }
        self.ranges = kept;
        proof {
            let fr = self.ranges@;
            assert(fr == final_kept.push(cur));
            assert forall|nn: int| #[trigger]
                self.covers(nn) <==> (old(self).covers(nn) || range.covers(nn)) by {
                let lhs = covers_prefix(orig, n as int, nn) || range.covers(nn);
                let rhs = covers_prefix(final_kept, final_kept.len() as int, nn) || cur.covers(
                    nn,
                );
                assert(lhs == rhs);
                if self.covers(nn) {
                    let m = choose|m: int|
                        0 <= m < fr.len() && (#[trigger] fr[m]).covers(nn);
                    if m < final_kept.len() {
                        assert(final_kept[m].covers(nn));
                        assert(covers_prefix(final_kept, final_kept.len() as int, nn));
                    } else {
                        assert(fr[m] == cur);
                    }
                    assert(rhs);
                    if covers_prefix(orig, n as int, nn) {
                        let i = choose|i: int|
                            0 <= i < n && (#[trigger] orig[i]).covers(nn);
                        assert(old(self).ranges@[i].covers(nn));
                        assert(old(self).covers(nn));
                    }
                }
                if old(self).covers(nn) {
                    let i = choose|i: int|
                        0 <= i < old(self).ranges@.len() && (#[trigger] old(
                            self,
                        ).ranges@[i]).covers(nn);
                    assert(orig[i].covers(nn));
                    assert(covers_prefix(orig, n as int, nn));
                }
                if range.covers(nn) || old(self).covers(nn) {
                    assert(rhs);
                    if covers_prefix(final_kept, final_kept.len() as int, nn) {
                        let m = choose|m: int|
                            0 <= m < final_kept.len() && (#[trigger] final_kept[m]).covers(nn);
                        assert(fr[m].covers(nn));
                    } else {
                        assert(cur.covers(nn));
                        assert(fr[fr.len() - 1].covers(nn));
                    }
                    assert(self.covers(nn));
                }
            }
        }
    }

    /// True iff some stored range covers the ingredient.
    pub fn check_produce(&self, ingredient: usize) -> (r: bool)
        ensures
            r == self.covers(ingredient as int),
    {
        let n = self.ranges.len();
        let mut k: usize = 0;
        while k < n
            invariant
                n == self.ranges@.len(),
                k <= n,
                forall|i: int| 0 <= i < k ==> !(#[trigger] self.ranges@[i]).covers(
                    ingredient as int,
                ),
            decreases n - k,
        {
            if self.ranges[k].contains_val(ingredient) {
                return true;
            }
            k += 1;
        }
        false
    }

    /// Total number of fresh ingredient codes: the sum of the sizes of
    /// the stored (pairwise disjoint) ranges.
    pub fn count_all_fresh(&self) -> (r: usize)
        requires
            self.wf(),
            sizes_sum(self.ranges@) <= usize::MAX,
        ensures
            r == sizes_sum(self.ranges@),
    {
        let n = self.ranges.len();
        let mut acc: usize = 0;
        let mut k: usize = 0;
        while k < n
            invariant
                self.wf(),
                sizes_sum(self.ranges@) <= usize::MAX,
                n == self.ranges@.len(),
                k <= n,
                acc == sizes_sum(self.ranges@.take(k as int)),
            decreases n - k,
        {
            proof {
                lemma_sizes_sum_take_succ(self.ranges@, k as int);
                lemma_sizes_sum_prefix_le(self.ranges@, k as int + 1);
            }
            let r = self.ranges[k];
            acc = acc + (r.end - r.start + 1);
            k += 1;
        }
        proof {
            assert(self.ranges@.take(n as int) =~= self.ranges@);
        }
        acc
    }

    /// Feeds the checker from already-read input lines: one range per
    /// line, stopping at the first empty line.  A line that does not
    /// parse stops the update with an error; lines before it are kept.
    pub fn update_from_reader(&mut self, lines: &Vec<String>) -> (r: Result<
        (),
        RangeParseError,
    >)
        requires
            old(self).wf(),
            forall|i: int|
                0 <= i < first_empty_from(lines@, 0) ==> find_char((#[trigger] lines@[i])@, '-', 0)
                    < lines@[i]@.len(),
            forall|i: int|
                0 <= i < first_empty_from(lines@, 0) ==> (match parse_range_spec(
                    (#[trigger] lines@[i])@,
                ) {
                    Some(rg) => rg.start <= rg.end,
                    None => true,
                }),
        ensures
            final(self).wf(),
            r is Ok <==> first_bad_from(lines@, 0, first_empty_from(lines@, 0))
                == first_empty_from(lines@, 0),
            forall|n: int|
                #[trigger] final(self).covers(n) <==> (old(self).covers(n) || lines_cover(
                    lines@,
                    first_bad_from(lines@, 0, first_empty_from(lines@, 0)),
                    n,
                )),
    {
        let ghost ape = first_empty_from(lines@, 0);
        proof {
            lemma_first_empty_bounds(lines@, 0);
        }
        let n = lines.len();
        let mut i: usize = 0;
        while i < n && lines[i].as_str().unicode_len() > 0
            invariant
                self.wf(),
                n == lines@.len(),
                0 <= i <= n,
                ape == first_empty_from(lines@, 0),
                ape == first_empty_from(lines@, i as int),
                i <= ape,
                first_bad_from(lines@, 0, ape) == first_bad_from(lines@, i as int, ape),
                forall|k: int|
                    0 <= k < ape ==> find_char((#[trigger] lines@[k])@, '-', 0)
                        < lines@[k]@.len(),
                forall|k: int|
                    0 <= k < ape ==> (match parse_range_spec((#[trigger] lines@[k])@) {
                        Some(rg) => rg.start <= rg.end,
                        None => true,
                    }),
                forall|nn: int|
                    #[trigger] self.covers(nn) <==> (old(self).covers(nn) || lines_cover(
                        lines@,
                        i as int,
                        nn,
                    )),
            decreases n - i,
        {
            let line = lines[i].as_str();
            assert(line@ == lines@[i as int]@);
            proof {
                assert(lines@[i as int]@.len() > 0);
                assert(first_empty_from(lines@, i as int) == first_empty_from(lines@, i + 1));
                lemma_first_empty_bounds(lines@, i + 1);
            }
            assert(i < ape);
            let ghost prev = *self;
            match Range::from_str(line) {
                Ok(rg) => {
                    assert(parse_range_spec(lines@[i as int]@) == Some(rg));
                    self.add_range(&rg);
                    proof {
                        assert forall|nn: int|
                            #[trigger] self.covers(nn) <==> (old(self).covers(nn) || lines_cover(
                                lines@,
                                i + 1,
                                nn,
                            )) by {
                            if self.covers(nn) {
                                assert(prev.covers(nn) || rg.covers(nn));
                                if prev.covers(nn) {
                                    if lines_cover(lines@, i as int, nn) {
                                        let w = choose|w: int|
                                            0 <= w < i && (match parse_range_spec(
                                                (#[trigger] lines@[w])@,
                                            ) {
                                                Some(r2) => r2.covers(nn),
                                                None => false,
                                            });
                                        assert(lines_cover(lines@, i + 1, nn));
                                    }
                                } else {
                                    assert(match parse_range_spec((lines@[i as int])@) {
                                        Some(r2) => r2.covers(nn),
                                        None => false,
                                    });
                                    assert(lines_cover(lines@, i + 1, nn));
                                }
                            }
                            if lines_cover(lines@, i + 1, nn) {
                                let w = choose|w: int|
                                    0 <= w < i + 1 && (match parse_range_spec(
                                        (#[trigger] lines@[w])@,
                                    ) {
                                        Some(r2) => r2.covers(nn),
                                        None => false,
                                    });
                                if w < i {
                                    assert(lines_cover(lines@, i as int, nn));
                                    assert(prev.covers(nn));
                                } else {
                                    assert(rg.covers(nn));
                                }
                                assert(self.covers(nn));
                            }
                            if old(self).covers(nn) {
                                assert(prev.covers(nn));
                                assert(self.covers(nn));
                            }
                        }
                    }
                },
                Err(e) => {
                    proof {
                        assert(parse_range_spec(lines@[i as int]@) is None);
                        assert(first_bad_from(lines@, i as int, ape) == i);
                    }
                    return Err(e);
                },
            }
            i += 1;
        }
        proof {
            assert(i == ape || first_empty_from(lines@, i as int) == i);
            assert(i == ape);
            assert(first_bad_from(lines@, i as int, ape) == ape);
        }
        Ok(())
    }
}

/// Index of the first empty line at or after i; the line count when
/// there is none.
pub open spec fn first_empty_from(lines: Seq<String>, i: int) -> int
    decreases lines.len() - i,
{
    if i < 0 || i >= lines.len() {
        lines.len() as int
    } else if lines[i]@.len() == 0 {
        i
    } else {
        first_empty_from(lines, i + 1)
    }
}

pub proof fn lemma_first_empty_bounds(lines: Seq<String>, i: int)
    requires
        0 <= i <= lines.len(),
    ensures
        i <= first_empty_from(lines, i) <= lines.len(),
    decreases lines.len() - i,
{
    if i < lines.len() && lines[i]@.len() != 0 {
        lemma_first_empty_bounds(lines, i + 1);
    }
}

/// Index of the first line in [i, end) that does not parse as a range;
/// `end` when all of them parse.
pub open spec fn first_bad_from(lines: Seq<String>, i: int, end: int) -> int
    decreases end - i,
{
    if i < 0 || i >= end || end > lines.len() {
        end
    } else if parse_range_spec(lines[i]@) is None {
        i
    } else {
        first_bad_from(lines, i + 1, end)
    }
}

/// Some line among the first k parses to a range that covers n.
pub open spec fn lines_cover(lines: Seq<String>, k: int, n: int) -> bool {
    exists|i: int|
        0 <= i < k && (match parse_range_spec((#[trigger] lines[i])@) {
            Some(r) => r.covers(n),
            None => false,
        })
}

/// Sum of the sizes of a sequence of valid ranges.
pub open spec fn sizes_sum(s: Seq<Range>) -> int
    decreases s.len(),
{
    if s.len() == 0 {
        0
    } else {
        sizes_sum(s.drop_last()) + (s.last().end - s.last().start + 1)
    }
}

proof fn lemma_sizes_sum_take_succ(s: Seq<Range>, k: int)
    requires
        0 <= k < s.len(),
    ensures
        sizes_sum(s.take(k + 1)) == sizes_sum(s.take(k)) + (s[k].end - s[k].start + 1),
{
    assert(s.take(k + 1).drop_last() =~= s.take(k));
    assert(s.take(k + 1).last() == s[k]);
}

proof fn lemma_sizes_sum_prefix_le(s: Seq<Range>, k: int)
    requires
        0 <= k <= s.len(),
        forall|i: int| 0 <= i < s.len() ==> (#[trigger] s[i]).valid(),
    ensures
        sizes_sum(s.take(k)) <= sizes_sum(s),
    decreases s.len(),
{
    if k == s.len() {
        assert(s.take(k) =~= s);
    } else {
        let sl = s.drop_last();
        assert forall|i: int| 0 <= i < sl.len() implies (#[trigger] sl[i]).valid() by {
            assert(sl[i] == s[i]);
        }
        assert(s.take(k) =~= sl.take(k));
        lemma_sizes_sum_prefix_le(sl, k);
        assert(s.last() == s[s.len() - 1]);
        assert(s.last().valid());
    }
}

} // verus!
