use vstd::prelude::*;
use crate::parsing::{digit_val, digits_value, is_digit_char};

verus! {

/// A failure while evaluating a worksheet.
#[derive(PartialEq, Eq, Structural, Debug, Copy, Clone)]
pub enum WorksheetError {
    NoOperations,
    NoLines,
    NumberTooLarge,
    BadOperation,
}

/// Product over the first k rows of column i.
pub open spec fn col_prod(rows: Seq<Vec<usize>>, i: int, k: int) -> int
    decreases k,
{
    if k <= 0 {
        1
    } else {
        col_prod(rows, i, k - 1) * rows[k - 1]@[i]
    }
}

/// Sum over the first k rows of column i.
pub open spec fn col_sum(rows: Seq<Vec<usize>>, i: int, k: int) -> int
    decreases k,
{
    if k <= 0 {
        0
    } else {
        col_sum(rows, i, k - 1) + rows[k - 1]@[i]
    }
}

/// Value of column j under its operation character.
pub open spec fn col_val(rows: Seq<Vec<usize>>, j: int, c: char) -> int {
    if c == '*' {
        col_prod(rows, j, rows.len() as int)
    } else {
        col_sum(rows, j, rows.len() as int)
    }
}

/// Total over the first j operation columns.
pub open spec fn total_pref(rows: Seq<Vec<usize>>, ops: Seq<String>, j: int) -> int
    decreases j,
{
    if j <= 0 {
        0
    } else {
        total_pref(rows, ops, j - 1) + col_val(rows, j - 1, ops[j - 1]@[0])
    }
}

proof fn lemma_col_prod_nonneg(rows: Seq<Vec<usize>>, i: int, k: int)
    ensures
        col_prod(rows, i, k) >= 0,
    decreases k,
{
    if k > 0 {
        lemma_col_prod_nonneg(rows, i, k - 1);
        assert(col_prod(rows, i, k - 1) * rows[k - 1]@[i] >= 0) by (nonlinear_arith)
            requires
                col_prod(rows, i, k - 1) >= 0,
                rows[k - 1]@[i] >= 0,
        ;
    }
}

proof fn lemma_col_sum_nonneg(rows: Seq<Vec<usize>>, i: int, k: int)
    ensures
        0 <= col_sum(rows, i, k),
    decreases k,
{
    if k > 0 {
        lemma_col_sum_nonneg(rows, i, k - 1);
    }
}

proof fn lemma_col_sum_bounds(rows: Seq<Vec<usize>>, i: int, k: int, e: int)
    requires
        0 <= k <= e,
    ensures
        0 <= col_sum(rows, i, k) <= col_sum(rows, i, e),
    decreases e - k,
{
    lemma_col_sum_nonneg(rows, i, k);
    if k < e {
        lemma_col_sum_bounds(rows, i, k, e - 1);
    }
}

proof fn lemma_total_pref_nonneg(rows: Seq<Vec<usize>>, ops: Seq<String>, j: int)
    ensures
        0 <= total_pref(rows, ops, j),
    decreases j,
{
    if j > 0 {
        lemma_total_pref_nonneg(rows, ops, j - 1);
        lemma_col_prod_nonneg(rows, j - 1, rows.len() as int);
        lemma_col_sum_nonneg(rows, j - 1, rows.len() as int);
    }
}

proof fn lemma_total_pref_bounds(rows: Seq<Vec<usize>>, ops: Seq<String>, j: int, e: int)
    requires
        0 <= j <= e,
    ensures
        0 <= total_pref(rows, ops, j) <= total_pref(rows, ops, e),
    decreases e - j,
{
    lemma_total_pref_nonneg(rows, ops, j);
    if j < e {
        lemma_total_pref_bounds(rows, ops, j, e - 1);
        lemma_col_prod_nonneg(rows, e - 1, rows.len() as int);
        lemma_col_sum_nonneg(rows, e - 1, rows.len() as int);
    }
}

/// Applies each column's operation — '*' multiplies the column's
/// entries, '+' adds them — and totals the column results.
pub fn part1(rows: &Vec<Vec<usize>>, operations: &Vec<String>) -> (r: usize)
    requires
        forall|j: int|
            0 <= j < operations@.len() ==> ((#[trigger] operations@[j])@ == seq!['*']
                || operations@[j]@ == seq!['+']),
        forall|ri: int|
            0 <= ri < rows@.len() ==> (#[trigger] rows@[ri])@.len() >= operations@.len(),
        forall|j: int, k: int|
            0 <= j < operations@.len() && 0 <= k <= rows@.len() && operations@[j]@[0] == '*'
                ==> #[trigger] col_prod(rows@, j, k) <= usize::MAX,
        forall|j: int|
            0 <= j < operations@.len() && operations@[j]@[0] == '+' ==> #[trigger] col_sum(
                rows@,
                j,
                rows@.len() as int,
            ) <= usize::MAX,
        total_pref(rows@, operations@, operations@.len() as int) <= usize::MAX,
    ensures
        r == total_pref(rows@, operations@, operations@.len() as int),
{
    let m = operations.len();
    let nr = rows.len();
    let mut total: usize = 0;
    let mut j: usize = 0;
    while j < m
        invariant
            m == operations@.len(),
            nr == rows@.len(),
            forall|jj: int|
                0 <= jj < operations@.len() ==> ((#[trigger] operations@[jj])@ == seq!['*']
                    || operations@[jj]@ == seq!['+']),
            forall|ri: int|
                0 <= ri < rows@.len() ==> (#[trigger] rows@[ri])@.len() >= operations@.len(),
            forall|jj: int, k: int|
                0 <= jj < operations@.len() && 0 <= k <= rows@.len() && operations@[jj]@[0] == '*'
                    ==> #[trigger] col_prod(rows@, jj, k) <= usize::MAX,
            forall|jj: int|
                0 <= jj < operations@.len() && operations@[jj]@[0] == '+' ==> #[trigger] col_sum(
                    rows@,
                    jj,
                    rows@.len() as int,
                ) <= usize::MAX,
            total_pref(rows@, operations@, operations@.len() as int) <= usize::MAX,
            j <= m,
            total == total_pref(rows@, operations@, j as int),
        decreases m - j,
    {
        let op = operations[j].as_str();
        assert(op@ == operations@[j as int]@);
        let c = op.get_char(0);
        let mut result: usize;
        if c == '*' {
            result = 1;
            let mut ri: usize = 0;
            while ri < nr
                invariant
                    m == operations@.len(),
                    nr == rows@.len(),
                    j < m,
                    operations@[j as int]@[0] == '*',
                    forall|rr: int|
                        0 <= rr < rows@.len() ==> (#[trigger] rows@[rr])@.len()
                            >= operations@.len(),
                    forall|jj: int, k: int|
                        0 <= jj < operations@.len() && 0 <= k <= rows@.len() && operations@[jj]@[0]
                            == '*' ==> #[trigger] col_prod(rows@, jj, k) <= usize::MAX,
                    ri <= nr,
                    result == col_prod(rows@, j as int, ri as int),
                decreases nr - ri,
            {
                proof {
                    assert(col_prod(rows@, j as int, ri + 1) == col_prod(rows@, j as int, ri as int)
                        * rows@[ri as int]@[j as int]);
                    assert(col_prod(rows@, j as int, ri + 1) <= usize::MAX);
                    lemma_col_prod_nonneg(rows@, j as int, ri as int);
                }
                let row = &rows[ri];
                result = result * row[j];
                ri += 1;
            }
        } else {
            result = 0;
            let mut ri: usize = 0;
            while ri < nr
                invariant
                    m == operations@.len(),
                    nr == rows@.len(),
                    j < m,
                    operations@[j as int]@[0] == '+',
                    forall|rr: int|
                        0 <= rr < rows@.len() ==> (#[trigger] rows@[rr])@.len()
                            >= operations@.len(),
                    forall|jj: int|
                        0 <= jj < operations@.len() && operations@[jj]@[0] == '+'
                            ==> #[trigger] col_sum(rows@, jj, rows@.len() as int) <= usize::MAX,
                    ri <= nr,
                    result == col_sum(rows@, j as int, ri as int),
                decreases nr - ri,
            {
                proof {
                    lemma_col_sum_bounds(rows@, j as int, ri + 1, rows@.len() as int);
                    lemma_col_sum_bounds(rows@, j as int, ri as int, ri + 1);
                }
                let row = &rows[ri];
                result = result + row[j];
                ri += 1;
            }
        }
        proof {
            lemma_total_pref_bounds(rows@, operations@, j + 1, operations@.len() as int);
            lemma_total_pref_bounds(rows@, operations@, j as int, j + 1);
        }
        total = total + result;
        j += 1;
    }
    total
}


pub open spec fn is_space(c: char) -> bool {
    c == ' ' || c == '\t' || c == '\n' || c == '\r' || c == '\u{b}' || c == '\u{c}'
}

/// Positions of the operator characters on the operations line.
pub open spec fn ops_from(s: Seq<char>, i: int) -> Seq<int>
    decreases s.len() - i,
{
    if i < 0 || i >= s.len() {
        Seq::empty()
    } else if is_space(s[i]) {
        ops_from(s, i + 1)
    } else {
        seq![i] + ops_from(s, i + 1)
    }
}

pub proof fn lemma_ops_from_bounds(s: Seq<char>, i: int)
    requires
        0 <= i <= s.len(),
    ensures
        forall|k: int|
            0 <= k < ops_from(s, i).len() ==> i <= #[trigger] ops_from(s, i)[k] < s.len(),
    decreases s.len() - i,
{
    if i < s.len() {
        lemma_ops_from_bounds(s, i + 1);
        assert forall|k: int|
            0 <= k < ops_from(s, i).len() implies i <= #[trigger] ops_from(s, i)[k]
            < s.len() by {
            if is_space(s[i]) {
                assert(ops_from(s, i)[k] == ops_from(s, i + 1)[k]);
            } else if k > 0 {
                assert(ops_from(s, i)[k] == ops_from(s, i + 1)[k - 1]);
            } else {
                assert(ops_from(s, i)[0] == i);
            }
        }
    }
}

/// Longest line length among the first k lines.
pub open spec fn max_line_len(lines: Seq<String>, k: int) -> int
    decreases k,
{
    if k <= 0 {
        0
    } else {
        let prev = max_line_len(lines, k - 1);
        if lines[k - 1]@.len() > prev {
            lines[k - 1]@.len() as int
        } else {
            prev
        }
    }
}

/// The digit characters found at character position pos, reading down
/// the lines from line l; a line too short contributes nothing.
pub open spec fn digits_at(lines: Seq<String>, pos: int, l: int) -> Seq<char>
    decreases lines.len() - l,
{
    if l < 0 || l >= lines.len() {
        Seq::empty()
    } else {
        (if 0 <= pos < lines[l]@.len() && is_digit_char(lines[l]@[pos]) {
            seq![lines[l]@[pos]]
        } else {
            Seq::empty()
        }) + digits_at(lines, pos, l + 1)
    }
}

pub proof fn lemma_digits_at_digits(lines: Seq<String>, pos: int, l: int)
    ensures
        crate::parsing::all_digits(digits_at(lines, pos, l)),
    decreases lines.len() - l,
{
    if 0 <= l < lines.len() {
        lemma_digits_at_digits(lines, pos, l + 1);
        let d = digits_at(lines, pos, l);
        let rest = digits_at(lines, pos, l + 1);
        assert forall|i: int| 0 <= i < d.len() implies is_digit_char(#[trigger] d[i]) by {
            if 0 <= pos < lines[l]@.len() && is_digit_char(lines[l]@[pos]) {
                if i > 0 {
                    assert(d[i] == rest[i - 1]);
                }
            } else {
                assert(d[i] == rest[i]);
            }
        }
    }
}

/// Every column number in positions [p, e) fits a usize.
pub open spec fn nums_ok(lines: Seq<String>, p: int, e: int) -> bool
    decreases e - p,
{
    if p >= e {
        true
    } else {
        (digits_at(lines, p, 0).len() == 0 || digits_value(digits_at(lines, p, 0))
            <= usize::MAX) && nums_ok(lines, p + 1, e)
    }
}

pub proof fn lemma_nums_ok_split(lines: Seq<String>, a: int, b: int, c: int)
    requires
        a <= b <= c,
    ensures
        nums_ok(lines, a, c) == (nums_ok(lines, a, b) && nums_ok(lines, b, c)),
    decreases b - a,
{
    if a < b {
        lemma_nums_ok_split(lines, a + 1, b, c);
    }
}

/// Product fold of the column numbers over positions [start, p); a
/// position without digits contributes a factor of 1.
pub open spec fn cp(lines: Seq<String>, start: int, p: int) -> int
    decreases p - start,
{
    if p <= start {
        1
    } else {
        cp(lines, start, p - 1) * (if digits_at(lines, p - 1, 0).len() > 0 {
            digits_value(digits_at(lines, p - 1, 0))
        } else {
            1
        })
    }
}

/// Sum fold of the column numbers over positions [start, p).
pub open spec fn cs(lines: Seq<String>, start: int, p: int) -> int
    decreases p - start,
{
    if p <= start {
        0
    } else {
        cs(lines, start, p - 1) + (if digits_at(lines, p - 1, 0).len() > 0 {
            digits_value(digits_at(lines, p - 1, 0))
        } else {
            0
        })
    }
}

proof fn lemma_cp_nonneg(lines: Seq<String>, start: int, p: int)
    ensures
        cp(lines, start, p) >= 0,
    decreases p - start,
{
    if p > start {
        lemma_cp_nonneg(lines, start, p - 1);
        lemma_digits_at_digits(lines, p - 1, 0);
        crate::parsing::lemma_digits_value_nonneg(digits_at(lines, p - 1, 0));
        let f = if digits_at(lines, p - 1, 0).len() > 0 {
            digits_value(digits_at(lines, p - 1, 0))
        } else {
            1
        };
        assert(cp(lines, start, p - 1) * f >= 0) by (nonlinear_arith)
            requires
                cp(lines, start, p - 1) >= 0,
                f >= 0,
        ;
    }
}

proof fn lemma_cs_nonneg(lines: Seq<String>, start: int, k: int)
    ensures
        0 <= cs(lines, start, k),
    decreases k - start,
{
    if k > start {
        lemma_cs_nonneg(lines, start, k - 1);
        lemma_digits_at_digits(lines, k - 1, 0);
        crate::parsing::lemma_digits_value_nonneg(digits_at(lines, k - 1, 0));
    }
}

proof fn lemma_cs_bounds(lines: Seq<String>, start: int, k: int, e: int)
    requires
        start <= k <= e,
    ensures
        0 <= cs(lines, start, k) <= cs(lines, start, e),
    decreases e - k,
{
    lemma_cs_nonneg(lines, start, k);
    if k < e {
        lemma_cs_bounds(lines, start, k, e - 1);
        lemma_digits_at_digits(lines, e - 1, 0);
        crate::parsing::lemma_digits_value_nonneg(digits_at(lines, e - 1, 0));
    }
}

/// Value of the column [start, end) under its operation character.
pub open spec fn col_value(lines: Seq<String>, start: int, end: int, c: char) -> int {
    if c == '*' {
        cp(lines, start, end)
    } else {
        cs(lines, start, end)
    }
}

/// Result of evaluating the columns from the j-th operator on: the
/// first column with an oversized number or an unknown operator stops
/// the evaluation with that error.
pub open spec fn cols_res(
    lines: Seq<String>,
    opsline: Seq<char>,
    ops: Seq<int>,
    llen: int,
    j: int,
) -> Result<int, WorksheetError>
    decreases ops.len() - j,
{
    if j < 0 || j >= ops.len() {
        Ok(0)
    } else {
        let start = ops[j];
        let end = if j + 1 < ops.len() {
            ops[j + 1]
        } else {
            llen
        };
        if end < start {
            cols_res(lines, opsline, ops, llen, j + 1)
        } else if !nums_ok(lines, start, end) {
            Err(WorksheetError::NumberTooLarge)
        } else if 0 <= start < opsline.len() && opsline[start] != '*' && opsline[start] != '+' {
            Err(WorksheetError::BadOperation)
        } else {
            match cols_res(lines, opsline, ops, llen, j + 1) {
                Ok(t) => Ok(col_value(lines, start, end, opsline[start]) + t),
                Err(e) => Err(e),
            }
        }
    }
}

/// What the column worksheet evaluates to, or the error it stops with.
pub open spec fn part2_spec(lines: Seq<String>, opsline: Seq<char>) -> Result<
    int,
    WorksheetError,
> {
    let ops = ops_from(opsline, 0);
    if ops.len() == 0 {
        Err(WorksheetError::NoOperations)
    } else if lines.len() == 0 {
        Err(WorksheetError::NoLines)
    } else {
        cols_res(lines, opsline, ops, max_line_len(lines, lines.len() as int), 0)
    }
}

/// No product, and no running total, overflows a usize along the
/// evaluation; evaluation that stops with an error is unconstrained
/// from there on.
pub open spec fn no_overflow_from(
    lines: Seq<String>,
    opsline: Seq<char>,
    ops: Seq<int>,
    llen: int,
    j: int,
    acc: int,
) -> bool
    decreases ops.len() - j,
{
    if j < 0 || j >= ops.len() {
        true
    } else {
        let start = ops[j];
        let end = if j + 1 < ops.len() {
            ops[j + 1]
        } else {
            llen
        };
        if end < start {
            no_overflow_from(lines, opsline, ops, llen, j + 1, acc)
        } else if !nums_ok(lines, start, end) {
            true
        } else if 0 <= start < opsline.len() && opsline[start] != '*' && opsline[start] != '+' {
            true
        } else {
            let v = col_value(lines, start, end, opsline[start]);
            &&& (if opsline[start] == '*' {
                forall|p: int| start <= p <= end ==> #[trigger] cp(lines, start, p) <= usize::MAX
            } else {
                cs(lines, start, end) <= usize::MAX
            })
            &&& acc + v <= usize::MAX
            &&& 0 <= acc + v
            &&& no_overflow_from(lines, opsline, ops, llen, j + 1, acc + v)
        }
    }
}

/// The number standing in character column pos, read downward through
/// the lines; None when no line has a digit there, an error when the
/// number does not fit a usize.
fn col_number(lines: &Vec<String>, pos: usize) -> (r: Result<Option<usize>, WorksheetError>)
    ensures
        (match r {
            Ok(None) => digits_at(lines@, pos as int, 0).len() == 0,
            Ok(Some(v)) => digits_at(lines@, pos as int, 0).len() > 0 && v == digits_value(
                digits_at(lines@, pos as int, 0),
            ),
            Err(e) => e == WorksheetError::NumberTooLarge && digits_at(
                lines@,
                pos as int,
                0,
            ).len() > 0 && digits_value(digits_at(lines@, pos as int, 0)) > usize::MAX,
        }),
{
    let n = lines.len();
    let mut acc: usize = 0;
    let mut got = false;
    let mut ovf = false;
    let ghost whole = digits_at(lines@, pos as int, 0);
    let mut collected: Ghost<Seq<char>> = Ghost(Seq::empty());
    let mut l: usize = 0;
    while l < n
        invariant
            n == lines@.len(),
            l <= n,
            whole == digits_at(lines@, pos as int, 0),
            whole == collected@ + digits_at(lines@, pos as int, l as int),
            crate::parsing::all_digits(collected@),
            got == (collected@.len() > 0),
            !ovf ==> acc == digits_value(collected@),
            ovf ==> digits_value(collected@) > usize::MAX,
        decreases n - l,
    {
        let line = lines[l].as_str();
        assert(line@ == lines@[l as int]@);
        let ghost prev = collected@;
        if pos < line.unicode_len() {
            let c = line.get_char(pos);
            let cv = c as u32;
            if cv >= 48 && cv <= 57 {
                let d = (cv - 48) as usize;
                proof {
                    collected@ = prev.push(c);
                    assert(collected@.drop_last() =~= prev);
                    assert(collected@.last() == c);
                    assert forall|i: int| 0 <= i < collected@.len() implies is_digit_char(
                        #[trigger] collected@[i],
                    ) by {
                        if i < collected@.len() - 1 {
                            assert(collected@[i] == prev[i]);
                        }
                    }
                    assert(digits_at(lines@, pos as int, l as int) =~= seq![c] + digits_at(
                        lines@,
                        pos as int,
                        l + 1,
                    ));
                    assert(collected@ + digits_at(lines@, pos as int, l + 1) =~= prev
                        + digits_at(lines@, pos as int, l as int));
                    assert(digits_value(collected@) == digits_value(prev) * 10 + digit_val(c));
                }
                if !ovf {
                    if acc > (usize::MAX - d) / 10 {
                        proof {
                            let b = usize::MAX - d;
                            assert(10 * (b / 10) <= b < 10 * (b / 10) + 10);
                            assert(acc * 10 > usize::MAX - d);
                        }
                        ovf = true;
                    } else {
                        proof {
                            let b = usize::MAX - d;
                            assert(10 * (b / 10) <= b);
                            assert(acc * 10 <= usize::MAX - d);
                        }
                        acc = acc * 10 + d;
                    }
                } else {
                    proof {
                        crate::parsing::lemma_digits_value_nonneg(prev);
                    }
                }
                got = true;
            } else {
                proof {
                    assert(digits_at(lines@, pos as int, l as int) =~= digits_at(
                        lines@,
                        pos as int,
                        l + 1,
                    ));
                }
            }
        } else {
            proof {
                assert(digits_at(lines@, pos as int, l as int) =~= digits_at(
                    lines@,
                    pos as int,
                    l + 1,
                ));
            }
        }
        l += 1;
    }
    proof {
        assert(digits_at(lines@, pos as int, l as int) =~= Seq::empty());
        assert(whole =~= collected@);
    }
    if !got {
        Ok(None)
    } else if ovf {
        Err(WorksheetError::NumberTooLarge)
    } else {
        Ok(Some(acc))
    }
}


/// Evaluates the column worksheet: reads numbers written vertically
/// under each operator's span of the layout, applies the operator, and
/// totals the columns.  Character positions index characters, so the
/// layout is treated as a plain ASCII character grid.
#[verifier::rlimit(80)]
pub fn part2(lines: &Vec<String>, operations_line: &str) -> (r: Result<usize, WorksheetError>)
    requires
        no_overflow_from(
            lines@,
            operations_line@,
            ops_from(operations_line@, 0),
            max_line_len(lines@, lines@.len() as int),
            0,
            0,
        ),
    ensures
        (match r {
            Ok(v) => part2_spec(lines@, operations_line@) == Ok::<int, WorksheetError>(v as int),
            Err(e) => part2_spec(lines@, operations_line@) == Err::<int, WorksheetError>(e),
        }),
{
    let n = operations_line.unicode_len();
    let ghost opsq = ops_from(operations_line@, 0);
    let mut ops: Vec<usize> = Vec::new();
    let mut i: usize = 0;
    while i < n
        invariant
            i <= n == operations_line@.len(),
            opsq == ops_from(operations_line@, 0),
            opsq == ops@.map_values(|u: usize| u as int) + ops_from(operations_line@, i as int),
        decreases n - i,
    {
        let c = operations_line.get_char(i);
        let ghost prevops = ops@;
        if !(c == ' ' || c == '\t' || c == '\n' || c == '\r' || c == '\u{b}' || c == '\u{c}') {
            ops.push(i);
            proof {
                assert(ops_from(operations_line@, i as int) =~= seq![i as int] + ops_from(operations_line@, i + 1));
                assert(ops@.map_values(|u: usize| u as int) =~= prevops.map_values(
                    |u: usize| u as int,
                ).push(i as int));
                assert(ops@.map_values(|u: usize| u as int) + ops_from(operations_line@, i + 1)
                    =~= prevops.map_values(|u: usize| u as int) + ops_from(operations_line@, i as int));
            }
        } else {
            proof {
                assert(ops_from(operations_line@, i as int) =~= ops_from(operations_line@, i + 1));
            }
        }
        i += 1;
    }
    proof {
        assert(ops_from(operations_line@, i as int) =~= Seq::<int>::empty());
        assert(opsq =~= ops@.map_values(|u: usize| u as int));
        lemma_ops_from_bounds(operations_line@, 0);
    }
    let m = ops.len();
    if m == 0 {
        return Err(WorksheetError::NoOperations);
    }
    let nl = lines.len();
    if nl == 0 {
        return Err(WorksheetError::NoLines);
    }
    let mut llen: usize = 0;
    let mut li: usize = 0;
    while li < nl
        invariant
            li <= nl == lines@.len(),
            llen == max_line_len(lines@, li as int),
        decreases nl - li,
    {
        let ll = lines[li].as_str().unicode_len();
        if ll > llen {
            llen = ll;
        }
        li += 1;
    }
    let ghost llg = max_line_len(lines@, lines@.len() as int);
    let mut total: usize = 0;
    let mut j: usize = 0;
    while j < m
        invariant
            m == ops@.len(),
            nl == lines@.len() > 0,
            n == operations_line@.len(),
            opsq == ops_from(operations_line@, 0),
            opsq == ops@.map_values(|u: usize| u as int),
            forall|k: int| 0 <= k < opsq.len() ==> 0 <= #[trigger] opsq[k] < operations_line@.len(),
            llen == llg == max_line_len(lines@, lines@.len() as int),
            j <= m,
            no_overflow_from(lines@, operations_line@, opsq, llg, j as int, total as int),
            (match cols_res(lines@, operations_line@, opsq, llg, j as int) {
                Ok(rest) => cols_res(lines@, operations_line@, opsq, llg, 0) == Ok::<int, WorksheetError>(
                    total + rest,
                ),
                Err(e) => cols_res(lines@, operations_line@, opsq, llg, 0) == Err::<int, WorksheetError>(e),
            }),
            0 <= total,
        decreases m - j,
    {
        let start = ops[j];
        let end = if j + 1 < m {
            ops[j + 1]
        } else {
            llen
        };
        proof {
            assert(opsq[j as int] == start as int);
            if j + 1 < m {
                assert(opsq[j + 1] == end as int);
            }
        }
        if end < start {
            proof {
                assert(cols_res(lines@, operations_line@, opsq, llg, j as int) == cols_res(
                    lines@,
                    operations_line@,
                    opsq,
                    llg,
                    j + 1,
                ));
            }
            j += 1;
        } else {
            let ghost st = start as int;
            let ghost en = end as int;
            let mut p = start;
            while p < end
                invariant
                    m == ops@.len(),
                    nl == lines@.len() > 0,
                    n == operations_line@.len(),
                    0 < m,
                    opsq == ops_from(operations_line@, 0),
                    opsq == ops@.map_values(|u: usize| u as int),
                    llg == max_line_len(lines@, lines@.len() as int),
                    j < m,
                    st == start as int,
                    en == end as int,
                    st == opsq[j as int],
                    en == (if j + 1 < m {
                        opsq[j + 1]
                    } else {
                        llg
                    }),
                    en >= st,
                    start <= p <= end,
                    nums_ok(lines@, st, p as int),
                    (match cols_res(lines@, operations_line@, opsq, llg, j as int) {
                        Ok(rest) => cols_res(lines@, operations_line@, opsq, llg, 0) == Ok::<
                            int,
                            WorksheetError,
                        >(total + rest),
                        Err(e) => cols_res(lines@, operations_line@, opsq, llg, 0) == Err::<
                            int,
                            WorksheetError,
                        >(e),
                    }),
                decreases end - p,
            {
                match col_number(lines, p) {
                    Ok(_) => {
                        proof {
                            assert(nums_ok(lines@, p + 1, p + 1));
                            assert(nums_ok(lines@, p as int, p + 1));
                            lemma_nums_ok_split(lines@, st, p as int, p + 1);
                        }
                    },
                    Err(e) => {
                        proof {
                            assert(!nums_ok(lines@, p as int, en)) by {
                                assert(!(digits_at(lines@, p as int, 0).len() == 0
                                    || digits_value(digits_at(lines@, p as int, 0))
                                    <= usize::MAX));
                            }
                            lemma_nums_ok_split(lines@, st, p as int, en);
                            assert(!nums_ok(lines@, st, en));
                            assert(cols_res(lines@, operations_line@, opsq, llg, j as int) == Err::<
                                int,
                                WorksheetError,
                            >(WorksheetError::NumberTooLarge));
                            assert(part2_spec(lines@, operations_line@) == Err::<
                                int,
                                WorksheetError,
                            >(WorksheetError::NumberTooLarge));
                        }
                        return Err(WorksheetError::NumberTooLarge);
                    },
                }
                p += 1;
            }
            assert(nums_ok(lines@, st, en));
            let opc = operations_line.get_char(start);
            if !(opc == '*' || opc == '+') {
                proof {
                    assert(cols_res(lines@, operations_line@, opsq, llg, j as int) == Err::<
                        int,
                        WorksheetError,
                    >(WorksheetError::BadOperation));
                    assert(part2_spec(lines@, operations_line@) == Err::<
                        int,
                        WorksheetError,
                    >(WorksheetError::BadOperation));
                }
                return Err(WorksheetError::BadOperation);
            }
            let mut colacc: usize;
            if opc == '*' {
                colacc = 1;
                let mut q = start;
                while q < end
                    invariant
                        nl == lines@.len(),
                        st == start as int,
                        en == end as int,
                        start <= q <= end,
                        nums_ok(lines@, st, en),
                        forall|pp: int|
                            st <= pp <= en ==> #[trigger] cp(lines@, st, pp) <= usize::MAX,
                        colacc == cp(lines@, st, q as int),
                    decreases end - q,
                {
                    proof {
                        lemma_nums_ok_split(lines@, st, q as int, en);
                        lemma_cp_nonneg(lines@, st, q as int);
                        lemma_digits_at_digits(lines@, q as int, 0);
                        crate::parsing::lemma_digits_value_nonneg(
                            digits_at(lines@, q as int, 0),
                        );
                    }
                    match col_number(lines, q) {
                        Ok(Some(v)) => {
                            proof {
                                assert(cp(lines@, st, q + 1) == cp(lines@, st, q as int) * (
                                v as int));
                                assert(cp(lines@, st, q + 1) <= usize::MAX);
                            }
                            colacc = colacc * v;
                        },
                        Ok(None) => {
                            proof {
                                assert(cp(lines@, st, q + 1) == cp(lines@, st, q as int) * 1);
                            }
                        },
                        Err(_) => {
                            proof {
                                assert(false);
                            }
                        },
                    }
                    q += 1;
                }
            } else {
                colacc = 0;
                let mut q = start;
                while q < end
                    invariant
                        nl == lines@.len(),
                        st == start as int,
                        en == end as int,
                        start <= q <= end,
                        nums_ok(lines@, st, en),
                        cs(lines@, st, en) <= usize::MAX,
                        colacc == cs(lines@, st, q as int),
                    decreases end - q,
                {
                    proof {
                        lemma_nums_ok_split(lines@, st, q as int, en);
                        lemma_cs_bounds(lines@, st, q + 1, en);
                        lemma_cs_bounds(lines@, st, q as int, q + 1);
                    }
                    match col_number(lines, q) {
                        Ok(Some(v)) => {
                            colacc = colacc + v;
                        },
                        Ok(None) => {
                        },
                        Err(_) => {
                            proof {
                                assert(false);
                            }
                        },
                    }
                    q += 1;
                }
            }
            proof {
                assert(colacc == col_value(lines@, st, en, operations_line@[st]));
                assert(total + colacc <= usize::MAX);
            }
            total = total + colacc;
            j += 1;
        }
    }
    proof {
        assert(cols_res(lines@, operations_line@, opsq, llg, m as int) == Ok::<int, WorksheetError>(0));
    }
    Ok(total)
}

} // verus!
