use vstd::prelude::*;
use crate::digitmax::pow10;
use crate::parsing::{digits_of, digits_vec, lemma_digits_of_len};

verus! {

/// The decimal digits split into a first and second half of equal
/// length that agree (so numbers with an odd digit count never
/// qualify).
pub open spec fn is_doubled(n: int) -> bool {
    let d = digits_of(n);
    d.subrange(0, d.len() as int / 2) == d.subrange(d.len() as int / 2, d.len() as int)
}

/// Chunk j of size i agrees with the leading chunk.
pub open spec fn chunk_eq(d: Seq<int>, i: int, j: int) -> bool {
    let len = d.len() as int;
    let end = if (j + 1) * i < len {
        (j + 1) * i
    } else {
        len
    };
    d.subrange(j * i, end) == d.subrange(0, i)
}

/// The digits consist of a block of length i repeated; a trailing
/// partial block disqualifies, as its length differs from the first.
pub open spec fn chunks_ok(d: Seq<int>, i: int) -> bool {
    forall|j: int| 1 <= j && j * i < d.len() ==> #[trigger] chunk_eq(d, i, j)
}

/// Some proper block length repeats through all the digits.
pub open spec fn is_repeated(n: int) -> bool {
    let d = digits_of(n);
    exists|i: int| 1 <= i < d.len() && #[trigger] chunks_ok(d, i)
}

/// Sum of the doubled numbers in [lo, hi].
pub open spec fn sum_doubled(lo: int, hi: int) -> int
    decreases hi - lo + 1,
{
    if lo > hi {
        0
    } else {
        (if is_doubled(lo) {
            lo
        } else {
            0
        }) + sum_doubled(lo + 1, hi)
    }
}

/// Sum of the block-repeating numbers in [lo, hi].
pub open spec fn sum_repeated(lo: int, hi: int) -> int
    decreases hi - lo + 1,
{
    if lo > hi {
        0
    } else {
        (if is_repeated(lo) {
            lo
        } else {
            0
        }) + sum_repeated(lo + 1, hi)
    }
}

/// Sum of `sum_doubled` over the first k ranges.
pub open spec fn total_doubled(ranges: Seq<Vec<usize>>, k: int) -> int
    decreases k,
{
    if k <= 0 {
        0
    } else {
        total_doubled(ranges, k - 1) + sum_doubled(
            ranges[k - 1]@[0] as int,
            ranges[k - 1]@[1] as int,
        )
    }
}

/// Sum of `sum_repeated` over the first k ranges.
pub open spec fn total_repeated(ranges: Seq<Vec<usize>>, k: int) -> int
    decreases k,
{
    if k <= 0 {
        0
    } else {
        total_repeated(ranges, k - 1) + sum_repeated(
            ranges[k - 1]@[0] as int,
            ranges[k - 1]@[1] as int,
        )
    }
}

proof fn lemma_sum_doubled_nonneg(lo: int, hi: int)
    requires
        lo >= 0,
    ensures
        0 <= sum_doubled(lo, hi),
    decreases hi - lo + 1,
{
    if lo <= hi {
        lemma_sum_doubled_nonneg(lo + 1, hi);
    }
}

proof fn lemma_sum_doubled_suffix(lo: int, mid: int, hi: int)
    requires
        0 <= lo <= mid,
    ensures
        sum_doubled(mid, hi) <= sum_doubled(lo, hi),
    decreases mid - lo,
{
    if lo < mid {
        lemma_sum_doubled_suffix(lo + 1, mid, hi);
    }
}

proof fn lemma_sum_repeated_nonneg(lo: int, hi: int)
    requires
        lo >= 0,
    ensures
        0 <= sum_repeated(lo, hi),
    decreases hi - lo + 1,
{
    if lo <= hi {
        lemma_sum_repeated_nonneg(lo + 1, hi);
    }
}

proof fn lemma_sum_repeated_suffix(lo: int, mid: int, hi: int)
    requires
        0 <= lo <= mid,
    ensures
        sum_repeated(mid, hi) <= sum_repeated(lo, hi),
    decreases mid - lo,
{
    if lo < mid {
        lemma_sum_repeated_suffix(lo + 1, mid, hi);
    }
}

/// Ranges are well formed for these scans: a start and an end entry,
/// with the end below usize::MAX so the scan can step past it.
pub open spec fn ranges_wf(ranges: Seq<Vec<usize>>) -> bool {
    forall|r: int|
        0 <= r < ranges.len() ==> (#[trigger] ranges[r])@.len() >= 2 && ranges[r]@[1]
            < usize::MAX
}

proof fn lemma_total_doubled_nonneg(ranges: Seq<Vec<usize>>, k: int)
    requires
        0 <= k <= ranges.len(),
    ensures
        0 <= total_doubled(ranges, k),
    decreases k,
{
    if k > 0 {
        lemma_total_doubled_nonneg(ranges, k - 1);
        lemma_sum_doubled_nonneg(ranges[k - 1]@[0] as int, ranges[k - 1]@[1] as int);
    }
}

proof fn lemma_total_doubled_mono(ranges: Seq<Vec<usize>>, k: int, e: int)
    requires
        0 <= k <= e <= ranges.len(),
    ensures
        total_doubled(ranges, k) <= total_doubled(ranges, e),
    decreases e - k,
{
    if k < e {
        lemma_total_doubled_mono(ranges, k, e - 1);
        lemma_sum_doubled_nonneg(ranges[e - 1]@[0] as int, ranges[e - 1]@[1] as int);
    }
}

proof fn lemma_total_repeated_mono(ranges: Seq<Vec<usize>>, k: int, e: int)
    requires
        0 <= k <= e <= ranges.len(),
    ensures
        total_repeated(ranges, k) <= total_repeated(ranges, e),
    decreases e - k,
{
    if k < e {
        lemma_total_repeated_mono(ranges, k, e - 1);
        lemma_sum_repeated_nonneg(ranges[e - 1]@[0] as int, ranges[e - 1]@[1] as int);
    }
}

proof fn lemma_total_repeated_nonneg(ranges: Seq<Vec<usize>>, k: int)
    requires
        0 <= k <= ranges.len(),
    ensures
        0 <= total_repeated(ranges, k),
    decreases k,
{
    if k > 0 {
        lemma_total_repeated_nonneg(ranges, k - 1);
        lemma_sum_repeated_nonneg(ranges[k - 1]@[0] as int, ranges[k - 1]@[1] as int);
    }
}

/// Whether the digit vector reads as two agreeing halves.
fn doubled_check(d: &Vec<usize>, ghost_n: Ghost<int>) -> (r: bool)
    requires
        d@.map_values(|v: usize| v as int) == digits_of(ghost_n@),
    ensures
        r == is_doubled(ghost_n@),
{
    let ghost dd = digits_of(ghost_n@);
    let len = d.len();
    if len % 2 != 0 {
        proof {
            assert(dd.len() == len);
            assert(dd.subrange(0, dd.len() as int / 2).len() != dd.subrange(
                dd.len() as int / 2,
                dd.len() as int,
            ).len());
        }
        return false;
    }
    let half = len / 2;
    let mut t: usize = 0;
    while t < half
        invariant
            dd == digits_of(ghost_n@),
            d@.map_values(|v: usize| v as int) == dd,
            len == d@.len(),
            len % 2 == 0,
            half == len / 2,
            t <= half,
            forall|u: int| 0 <= u < t ==> (#[trigger] dd[u]) == dd[u + half],
        decreases half - t,
    {
        if d[t] != d[t + half] {
            proof {
                assert(dd[t as int] == d@[t as int]);
                assert(dd[t + half] == d@[t + half]);
                if is_doubled(ghost_n@) {
                    assert(dd.subrange(0, half as int)[t as int] == dd.subrange(
                        half as int,
                        len as int,
                    )[t as int]);
                }
            }
            return false;
        }
        proof {
            assert(dd[t as int] == d@[t as int] && dd[t + half] == d@[t + half]);
        }
        t += 1;
    }
    proof {
        assert(dd.subrange(0, half as int) =~= dd.subrange(half as int, len as int));
    }
    true
}

/// Whether the digit vector consists of a repeated block of length i.
fn chunks_check(d: &Vec<usize>, i: usize, ghost_n: Ghost<int>) -> (r: bool)
    requires
        d@.map_values(|v: usize| v as int) == digits_of(ghost_n@),
        1 <= i < d@.len(),
        d@.len() <= 20,
    ensures
        r == chunks_ok(digits_of(ghost_n@), i as int),
{
    let ghost dd = digits_of(ghost_n@);
    let len = d.len();
    let mut j: usize = 1;
    let mut start = i;
    while start < len
        invariant
            dd == digits_of(ghost_n@),
            d@.map_values(|v: usize| v as int) == dd,
            len == d@.len() <= 20,
            1 <= i < len,
            1 <= j <= len,
            start == j * i,
            forall|jj: int| 1 <= jj < j && jj * i < len ==> #[trigger] chunk_eq(dd, i as int, jj),
        decreases len - start,
    {
        let end = if start + i < len {
            start + i
        } else {
            len
        };
        proof {
            assert((j + 1) * i == start + i) by (nonlinear_arith)
                requires
                    start == j * i,
            ;
        }
        if end - start != i {
            proof {
                assert(dd.subrange(start as int, end as int).len() != dd.subrange(
                    0,
                    i as int,
                ).len());
                assert(!chunk_eq(dd, i as int, j as int));
            }
            return false;
        }
        let mut t: usize = 0;
        while t < i
            invariant
                dd == digits_of(ghost_n@),
                d@.map_values(|v: usize| v as int) == dd,
                len == d@.len() <= 20,
                1 <= i < len,
                1 <= j <= len,
                start == j * i,
                start + i <= len,
                t <= i,
                forall|u: int| 0 <= u < t ==> dd[start + u] == (#[trigger] dd[u]),
            decreases i - t,
        {
            if d[start + t] != d[t] {
                proof {
                    assert(dd[start + t] == d@[start + t] && dd[t as int] == d@[t as int]);
                    assert((j + 1) * i == start + i) by (nonlinear_arith)
                        requires
                            start == j * i,
                    ;
                    if chunk_eq(dd, i as int, j as int) {
                        assert(dd.subrange(start as int, start + i)[t as int] == dd.subrange(
                            0,
                            i as int,
                        )[t as int]);
                    }
                }
                return false;
            }
            proof {
                assert(dd[start + t] == d@[start + t] && dd[t as int] == d@[t as int]);
            }
            t += 1;
        }
        proof {
            assert((j + 1) * i == start + i) by (nonlinear_arith)
                requires
                    start == j * i,
            ;
            assert(dd.subrange(start as int, start + i) =~= dd.subrange(0, i as int));
            assert(chunk_eq(dd, i as int, j as int));
            assert forall|jj: int|
                1 <= jj < j + 1 && jj * i < len implies #[trigger] chunk_eq(dd, i as int, jj) by {}
            assert(j + 1 <= len) by (nonlinear_arith)
                requires
                    start == j * i,
                    start + i <= len,
                    i >= 1,
                    j >= 1,
            ;
        }
        start = start + i;
        j += 1;
    }
    proof {
        assert forall|jj: int| 1 <= jj && jj * i < dd.len() implies #[trigger] chunk_eq(
            dd,
            i as int,
            jj,
        ) by {
            if jj >= j {
                assert(jj * i >= j * i) by (nonlinear_arith)
                    requires
                        jj >= j >= 1,
                        i >= 1,
                ;
            }
        }
    }
    true
}

proof fn lemma_digits_len_small(n: int)
    requires
        0 <= n <= usize::MAX,
    ensures
        digits_of(n).len() <= 20,
{
    reveal_with_fuel(pow10, 25);
    assert(pow10(20) == 100000000000000000000);
    assert(n < pow10(20));
    lemma_digits_len_20(n, 20);
}

proof fn lemma_digits_len_20(n: int, k: int)
    requires
        1 <= k,
        0 <= n < pow10(k),
    ensures
        digits_of(n).len() <= k,
    decreases k,
{
    if n >= 10 {
        assert(pow10(k) == 10 * pow10(k - 1));
        assert(n / 10 < pow10(k - 1));
        lemma_digits_len_20(n / 10, k - 1);
    }
}

/// Sum of the numbers whose decimal digits are two agreeing halves,
/// over every given inclusive range.
pub fn part1(ranges: &Vec<Vec<usize>>) -> (r: usize)
    requires
        ranges_wf(ranges@),
        total_doubled(ranges@, ranges@.len() as int) <= usize::MAX,
    ensures
        r == total_doubled(ranges@, ranges@.len() as int),
{
    let nr = ranges.len();
    let mut total: usize = 0;
    let mut ri: usize = 0;
    while ri < nr
        invariant
            nr == ranges@.len(),
            ranges_wf(ranges@),
            total_doubled(ranges@, ranges@.len() as int) <= usize::MAX,
            ri <= nr,
            total == total_doubled(ranges@, ri as int),
        decreases nr - ri,
    {
        let range = &ranges[ri];
        let lo = range[0];
        let hi = range[1];
        let ghost lo_g = lo as int;
        let ghost hi_g = hi as int;
        let mut num = lo;
        let mut acc: usize = 0;
        while num <= hi
            invariant
                nr == ranges@.len(),
                ranges_wf(ranges@),
                total_doubled(ranges@, ranges@.len() as int) <= usize::MAX,
                ri < nr,
                lo_g == lo as int && hi_g == hi as int,
                lo == ranges@[ri as int]@[0] && hi == ranges@[ri as int]@[1],
                hi < usize::MAX,
                lo <= num,
                total == total_doubled(ranges@, ri as int),
                acc + sum_doubled(num as int, hi_g) == sum_doubled(lo_g, hi_g),
                acc >= 0,
            decreases hi_g + 1 - num,
        {
            let d = digits_vec(num);
            let dbl = doubled_check(&d, Ghost(num as int));
            proof {
                lemma_sum_doubled_nonneg(num as int + 1, hi_g);
                lemma_sum_doubled_suffix(lo_g, num as int, hi_g);
                lemma_sum_doubled_nonneg(lo_g, hi_g);
                lemma_total_doubled_nonneg(ranges@, ri as int);
                lemma_total_doubled_mono(ranges@, ri + 1, ranges@.len() as int);
                assert(total_doubled(ranges@, ri + 1) == total_doubled(ranges@, ri as int)
                    + sum_doubled(lo_g, hi_g));
            }
            if dbl {
                acc = acc + num;
            }
            num += 1;
        }
        proof {
            assert(sum_doubled(num as int, hi_g) == 0);
            lemma_total_doubled_mono(ranges@, ri + 1, ranges@.len() as int);
            lemma_total_doubled_nonneg(ranges@, ri as int);
            assert(total_doubled(ranges@, ri + 1) == total_doubled(ranges@, ri as int)
                + sum_doubled(lo_g, hi_g));
        }
        total = total + acc;
        ri += 1;
    }
    total
}

/// Sum of the numbers whose decimal digits consist of one block
/// repeated, over every given inclusive range.
pub fn part2(ranges: &Vec<Vec<usize>>) -> (r: usize)
    requires
        ranges_wf(ranges@),
        total_repeated(ranges@, ranges@.len() as int) <= usize::MAX,
    ensures
        r == total_repeated(ranges@, ranges@.len() as int),
{
    let nr = ranges.len();
    let mut total: usize = 0;
    let mut ri: usize = 0;
    while ri < nr
        invariant
            nr == ranges@.len(),
            ranges_wf(ranges@),
            total_repeated(ranges@, ranges@.len() as int) <= usize::MAX,
            ri <= nr,
            total == total_repeated(ranges@, ri as int),
        decreases nr - ri,
    {
        let range = &ranges[ri];
        let lo = range[0];
        let hi = range[1];
        let ghost lo_g = lo as int;
        let ghost hi_g = hi as int;
        let mut num = lo;
        let mut acc: usize = 0;
        while num <= hi
            invariant
                nr == ranges@.len(),
                ranges_wf(ranges@),
                total_repeated(ranges@, ranges@.len() as int) <= usize::MAX,
                ri < nr,
                lo_g == lo as int && hi_g == hi as int,
                lo == ranges@[ri as int]@[0] && hi == ranges@[ri as int]@[1],
                hi < usize::MAX,
                lo <= num,
                total == total_repeated(ranges@, ri as int),
                acc + sum_repeated(num as int, hi_g) == sum_repeated(lo_g, hi_g),
                acc >= 0,
            decreases hi_g + 1 - num,
        {
            let d = digits_vec(num);
            proof {
                lemma_digits_len_small(num as int);
                lemma_digits_of_len(num as int);
            }
            let len = d.len();
            let mut found = false;
            let mut i = len - 1;
            while i >= 1 && !found
                invariant
                    d@.map_values(|v: usize| v as int) == digits_of(num as int),
                    len == d@.len() <= 20,
                    len >= 1,
                    i <= len - 1,
                    found ==> is_repeated(num as int),
                    !found ==> (forall|ii: int|
                        i < ii < len ==> !#[trigger] chunks_ok(digits_of(num as int), ii)),
                decreases i + (if found { 0int } else { 1 }),
            {
                if chunks_check(&d, i, Ghost(num as int)) {
                    found = true;
                    proof {
                        assert(1 <= i as int);
                        assert((i as int) < digits_of(num as int).len());
                        assert(chunks_ok(digits_of(num as int), i as int));
                    }
                } else {
                    i -= 1;
                }
            }
            proof {
                if !found && is_repeated(num as int) {
                    let wi = choose|ii: int|
                        1 <= ii < digits_of(num as int).len() && #[trigger] chunks_ok(
                            digits_of(num as int),
                            ii,
                        );
                    assert(false);
                }
                lemma_sum_repeated_nonneg(num as int + 1, hi_g);
                lemma_sum_repeated_suffix(lo_g, num as int, hi_g);
                lemma_sum_repeated_nonneg(lo_g, hi_g);
                lemma_total_repeated_nonneg(ranges@, ri as int);
                lemma_total_repeated_mono(ranges@, ri + 1, ranges@.len() as int);
                assert(total_repeated(ranges@, ri + 1) == total_repeated(ranges@, ri as int)
                    + sum_repeated(lo_g, hi_g));
            }
            if found {
                acc = acc + num;
            }
            num += 1;
        }
        proof {
            assert(sum_repeated(num as int, hi_g) == 0);
            lemma_total_repeated_mono(ranges@, ri + 1, ranges@.len() as int);
            lemma_total_repeated_nonneg(ranges@, ri as int);
            assert(total_repeated(ranges@, ri + 1) == total_repeated(ranges@, ri as int)
                + sum_repeated(lo_g, hi_g));
        }
        total = total + acc;
        ri += 1;
    }
    total
}

} // verus!
