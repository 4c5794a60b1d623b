use vstd::prelude::*;
use vstd::slice::slice_subrange;
use crate::parsing::{all_digits, is_digit_char};

verus! {

/// The two-digit number read from a pair of digit characters.
pub open spec fn two_digit(c1: char, c2: char) -> int {
    (c1 as u32 - '0' as u32) * 10 + (c2 as u32 - '0' as u32)
}

/// Best two-digit number among the ordered pairs (i, t) with i < t < j.
pub open spec fn p1_row(s: Seq<char>, i: int, j: int) -> int
    decreases j - i,
{
    if j <= i + 1 {
        0
    } else {
        let prev = p1_row(s, i, j - 1);
        let a = two_digit(s[i], s[j - 1]);
        if a > prev {
            a
        } else {
            prev
        }
    }
}

/// Best two-digit number over all ordered pairs among the first i
/// characters.
pub open spec fn p1_pref(s: Seq<char>, i: int) -> int
    decreases i,
{
    if i <= 0 {
        0
    } else {
        let prev = p1_pref(s, i - 1);
        let r = p1_row(s, i - 1, s.len() as int);
        if r > prev {
            r
        } else {
            prev
        }
    }
}

/// Highest two-digit number formed by any ordered pair of digits of
/// the line.
pub fn part1(chars: &Vec<char>) -> (r: usize)
    requires
        chars@.len() >= 1,
        all_digits(chars@),
    ensures
        r == p1_pref(chars@, chars@.len() as int),
{
    let n = chars.len();
    let mut highest: usize = 0;
    let mut i: usize = 0;
    while i < n - 1
        invariant
            1 <= n == chars@.len(),
            all_digits(chars@),
            i <= n - 1,
            highest == p1_pref(chars@, i as int),
        decreases n - 1 - i,
    {
        let mut j = i + 1;
        let mut row: usize = 0;
        while j < n
            invariant
                1 <= n == chars@.len(),
                all_digits(chars@),
                i < n,
                i + 1 <= j <= n,
                row == p1_row(chars@, i as int, j as int),
            decreases n - j,
        {
            assert(is_digit_char(chars@[i as int]));
            assert(is_digit_char(chars@[j as int]));
            let d1 = (chars[i] as u32 - 48) as usize;
            let d2 = (chars[j] as u32 - 48) as usize;
            let num = d1 * 10 + d2;
            if num > row {
                row = num;
            }
            j += 1;
        }
        proof {
            lemma_p1_row_nonneg(chars@, i as int, n as int);
            lemma_p1_pref_nonneg(chars@, i as int);
        }
        if row > highest {
            highest = row;
        }
        i += 1;
    }
    proof {
        lemma_p1_last_row_empty(chars@);
    }
    highest
}

proof fn lemma_p1_row_nonneg(s: Seq<char>, i: int, j: int)
    ensures
        p1_row(s, i, j) >= 0,
    decreases j - i,
{
    if j > i + 1 {
        lemma_p1_row_nonneg(s, i, j - 1);
    }
}

proof fn lemma_p1_pref_nonneg(s: Seq<char>, i: int)
    ensures
        p1_pref(s, i) >= 0,
    decreases i,
{
    if i > 0 {
        lemma_p1_pref_nonneg(s, i - 1);
        lemma_p1_row_nonneg(s, i - 1, s.len() as int);
    }
}

proof fn lemma_p1_last_row_empty(s: Seq<char>)
    requires
        s.len() >= 1,
    ensures
        p1_pref(s, s.len() as int) == p1_pref(s, s.len() - 1),
{
    assert(p1_row(s, s.len() - 1, s.len() as int) == 0);
    lemma_p1_pref_nonneg(s, s.len() - 1);
}

/// 10 to the k-th power.
pub open spec fn pow10(k: int) -> int
    decreases k,
{
    if k <= 0 {
        1
    } else {
        10 * pow10(k - 1)
    }
}

proof fn lemma_pow10_pos(k: int)
    ensures
        pow10(k) >= 1,
    decreases k,
{
    if k > 0 {
        lemma_pow10_pos(k - 1);
    }
}

proof fn lemma_pow10_mono(a: int, b: int)
    requires
        a <= b,
    ensures
        pow10(a) <= pow10(b),
    decreases b - a,
{
    if a < b {
        lemma_pow10_mono(a, b - 1);
        lemma_pow10_pos(b - 1);
    }
}

/// Value of a digit sequence folded left to right.
pub open spec fn digits_fold(s: Seq<u32>) -> int
    decreases s.len(),
{
    if s.len() == 0 {
        0
    } else {
        digits_fold(s.drop_last()) * 10 + s.last()
    }
}

/// The largest entry among the first k (0 when k is 0).
pub open spec fn max_pref(s: Seq<u32>, k: int) -> int
    decreases k,
{
    if k <= 0 {
        0
    } else {
        let prev = max_pref(s, k - 1);
        if s[k - 1] > prev {
            s[k - 1] as int
        } else {
            prev
        }
    }
}

/// The index the greedy scan picks among the first k entries: the
/// first index achieving the running maximum.
pub open spec fn best_idx(s: Seq<u32>, k: int) -> int
    decreases k,
{
    if k <= 0 {
        0
    } else {
        if s[k - 1] > max_pref(s, k - 1) {
            k - 1
        } else {
            best_idx(s, k - 1)
        }
    }
}

proof fn lemma_best_idx_max(s: Seq<u32>, k: int)
    requires
        1 <= k <= s.len(),
    ensures
        0 <= best_idx(s, k) < k,
        s[best_idx(s, k)] == max_pref(s, k),
    decreases k,
{
    if k == 1 {
        assert(max_pref(s, 0) == 0);
        assert(best_idx(s, 0) == 0);
    } else {
        lemma_best_idx_max(s, k - 1);
    }
}

/// What the greedy digit picker computes: with n digits still to
/// place, take the highest digit that leaves enough digits behind it,
/// then recurse on what follows it.
pub open spec fn greedy_spec(s: Seq<u32>, n: int) -> int
    decreases n,
{
    if n <= 0 {
        0
    } else if n == s.len() {
        digits_fold(s)
    } else if n == 1 {
        max_pref(s, s.len() as int)
    } else {
        let b = best_idx(s, s.len() - n + 1);
        greedy_spec(s.skip(b + 1), n - 1) + s[b] * pow10(n - 1)
    }
}

pub open spec fn small_digits(s: Seq<u32>) -> bool {
    forall|i: int| 0 <= i < s.len() ==> (#[trigger] s[i]) <= 9
}

proof fn lemma_greedy_bound(s: Seq<u32>, n: int)
    requires
        small_digits(s),
        0 <= n <= s.len(),
    ensures
        0 <= greedy_spec(s, n) < pow10(n),
    decreases n,
{
    lemma_pow10_pos(n);
    if n <= 0 {
    } else if n == s.len() {
        lemma_digits_fold_bound(s);
    } else if n == 1 {
        lemma_max_pref_bound(s, s.len() as int);
    } else {
        let b = best_idx(s, s.len() - n + 1);
        lemma_best_idx_max(s, s.len() - n + 1);
        let rest = s.skip(b + 1);
        assert forall|i: int| 0 <= i < rest.len() implies (#[trigger] rest[i]) <= 9 by {
            assert(rest[i] == s[b + 1 + i]);
        }
        lemma_greedy_bound(rest, n - 1);
        lemma_pow10_pos(n - 1);
        assert(s[b] * pow10(n - 1) <= 9 * pow10(n - 1)) by (nonlinear_arith)
            requires
                s[b] <= 9,
                pow10(n - 1) >= 1,
        ;
        assert(s[b] * pow10(n - 1) >= 0) by (nonlinear_arith)
            requires
                s[b] >= 0,
                pow10(n - 1) >= 1,
        ;
    }
}

proof fn lemma_digits_fold_bound(s: Seq<u32>)
    requires
        small_digits(s),
    ensures
        0 <= digits_fold(s) < pow10(s.len() as int),
    decreases s.len(),
{
    if s.len() == 0 {
    } else {
        let sl = s.drop_last();
        assert forall|i: int| 0 <= i < sl.len() implies (#[trigger] sl[i]) <= 9 by {
            assert(sl[i] == s[i]);
        }
        lemma_digits_fold_bound(sl);
        assert(s.last() == s[s.len() - 1]);
    }
}

proof fn lemma_max_pref_bound(s: Seq<u32>, k: int)
    requires
        small_digits(s),
        k <= s.len(),
    ensures
        0 <= max_pref(s, k) <= 9,
    decreases k,
{
    if k > 0 {
        lemma_max_pref_bound(s, k - 1);
    }
}

/// Greedy pick of the largest n-digit number that keeps the digits in
/// order: repeatedly take the highest digit that still leaves enough
/// digits after it.
pub fn part2_helper(nums: &[u32], n: usize) -> (r: usize)
    requires
        small_digits(nums@),
        n <= nums@.len(),
        pow10(n as int) <= usize::MAX,
    ensures
        r == greedy_spec(nums@, n as int),
    decreases n,
{
    let len = nums.len();
    if n == 0 {
        return 0;
    }
    if n == len {
        let mut acc: usize = 0;
        let mut k: usize = 0;
        while k < len
            invariant
                small_digits(nums@),
                len == nums@.len(),
                pow10(len as int) <= usize::MAX,
                k <= len,
                acc == digits_fold(nums@.take(k as int)),
                acc < pow10(k as int),
            decreases len - k,
        {
            proof {
                let t = nums@.take(k + 1);
                assert(t.drop_last() =~= nums@.take(k as int));
                assert(t.last() == nums@[k as int]);
                assert forall|i: int| 0 <= i < t.len() implies (#[trigger] t[i]) <= 9 by {
                    assert(t[i] == nums@[i]);
                }
                lemma_pow10_mono(k + 1, len as int);
                assert(nums@[k as int] <= 9);
                assert(pow10(k + 1) == 10 * pow10(k as int));
            }
            acc = acc * 10 + (nums[k] as usize);
            k += 1;
        }
        proof {
            assert(nums@.take(len as int) =~= nums@);
        }
        return acc;
    }
    if n == 1 {
        let mut best: u32 = 0;
        let mut k: usize = 0;
        while k < len
            invariant
                len == nums@.len(),
                k <= len,
                best == max_pref(nums@, k as int),
            decreases len - k,
        {
            if nums[k] > best {
                best = nums[k];
            }
            k += 1;
        }
        return best as usize;
    }
    let mut highest: u32 = 0;
    let mut index: usize = 0;
    let mut k: usize = 0;
    let upto = len - n + 1;
    while k < upto
        invariant
            small_digits(nums@),
            len == nums@.len(),
            2 <= n <= len,
            pow10(n as int) <= usize::MAX,
            upto == len - n + 1,
            k <= upto,
            index == best_idx(nums@, k as int),
            highest == max_pref(nums@, k as int),
        decreases upto - k,
    {
        if nums[k] > highest {
            index = k;
            highest = nums[k];
        }
        k += 1;
    }
    proof {
        lemma_best_idx_max(nums@, upto as int);
    }
    proof {
        lemma_pow10_mono(n as int - 1, n as int);
    }
    let rest = slice_subrange(nums, index + 1, len);
    let sub = part2_helper(rest, n - 1);
    proof {
        assert(rest@ =~= nums@.skip(index + 1));
        assert forall|i: int| 0 <= i < rest@.len() implies (#[trigger] rest@[i]) <= 9 by {
            assert(rest@[i] == nums@[index + 1 + i]);
        }
        lemma_greedy_bound(rest@, n as int - 1);
        lemma_pow10_pos(n as int - 1);
        assert(nums@[index as int] * pow10(n as int - 1) <= 9 * pow10(n as int - 1))
            by (nonlinear_arith)
            requires
                nums@[index as int] <= 9,
                pow10(n as int - 1) >= 1,
        ;
        assert(nums@[index as int] * pow10(n as int - 1) >= 0) by (nonlinear_arith)
            requires
                nums@[index as int] >= 0,
                pow10(n as int - 1) >= 1,
        ;
    }
    proof {
        assert(pow10(n as int) == 10 * pow10(n as int - 1));
        assert(nums@[index as int] <= 9);
        lemma_pow10_mono(n as int - 1, n as int);
    }
    let p = pow10_exec(n - 1);
    sub + (highest as usize) * p
}

/// 10 to the k-th power, executable.
pub fn pow10_exec(k: usize) -> (r: usize)
    requires
        pow10(k as int) <= usize::MAX,
    ensures
        r == pow10(k as int),
{
    let mut r: usize = 1;
    let mut i: usize = 0;
    while i < k
        invariant
            i <= k,
            pow10(k as int) <= usize::MAX,
            r == pow10(i as int),
        decreases k - i,
    {
        proof {
            lemma_pow10_mono(i as int + 1, k as int);
            assert(pow10(i as int + 1) == 10 * pow10(i as int));
        }
        r = r * 10;
        i += 1;
    }
    r
}

/// Highest 12-digit number obtainable by deleting digits of the line
/// while keeping their order.
pub fn part2(chars: &Vec<char>) -> (r: usize)
    requires
        all_digits(chars@),
        12 <= chars@.len(),
        pow10(12) <= usize::MAX,
    ensures
        r == greedy_spec(chars@.map_values(|c: char| (c as u32 - '0' as u32) as u32), 12),
{
    let n = chars.len();
    let mut nums: Vec<u32> = Vec::new();
    let mut k: usize = 0;
    while k < n
        invariant
            all_digits(chars@),
            n == chars@.len(),
            k <= n,
            nums@ == chars@.map_values(|c: char| (c as u32 - '0' as u32) as u32).take(k as int),
        decreases n - k,
    {
        assert(is_digit_char(chars@[k as int]));
        nums.push(chars[k] as u32 - 48);
        proof {
            assert(nums@ =~= chars@.map_values(|c: char| (c as u32 - '0' as u32) as u32).take(
                k + 1,
            ));
        }
        k += 1;
    }
    proof {
        let mapped = chars@.map_values(|c: char| (c as u32 - '0' as u32) as u32);
        assert(nums@ =~= mapped);
        assert forall|i: int| 0 <= i < mapped.len() implies (#[trigger] mapped[i]) <= 9 by {
            assert(is_digit_char(chars@[i]));
        }
    }
    part2_helper(nums.as_slice(), 12)
}

} // verus!
