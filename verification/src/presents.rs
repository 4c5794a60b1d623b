use vstd::prelude::*;

verus! {

/// Paper needed for the first k shape kinds of one tree: each kind's
/// count times that kind's unit size.
pub open spec fn required_paper(counts: Seq<usize>, sizes: Seq<usize>, k: int) -> int
    decreases k,
{
    if k <= 0 {
        0
    } else {
        required_paper(counts, sizes, k - 1) + counts[k - 1] * sizes[k - 1]
    }
}

/// The number of shape kinds a tree line pairs with the size table.
pub open spec fn paired_len(counts: Seq<usize>, sizes: Seq<usize>) -> int {
    if counts.len() <= sizes.len() {
        counts.len() as int
    } else {
        sizes.len() as int
    }
}

/// A tree fits when the paper its counts require is at most its size.
pub open spec fn tree_fits(tree: (usize, Vec<usize>), sizes: Seq<usize>) -> bool {
    required_paper(tree.1@, sizes, paired_len(tree.1@, sizes)) <= tree.0
}

/// How many of the first k trees fit.
pub open spec fn fit_count(trees: Seq<(usize, Vec<usize>)>, sizes: Seq<usize>, k: int) -> int
    decreases k,
{
    if k <= 0 {
        0
    } else {
        fit_count(trees, sizes, k - 1) + (if tree_fits(trees[k - 1], sizes) {
            1int
        } else {
            0
        })
    }
}

proof fn lemma_required_bounds(counts: Seq<usize>, sizes: Seq<usize>, k: int, e: int)
    requires
        0 <= k <= e,
    ensures
        0 <= required_paper(counts, sizes, k) <= required_paper(counts, sizes, e),
    decreases e - k + k,
{
    if k > 0 && k == e {
        lemma_required_bounds(counts, sizes, k - 1, k - 1);
        assert(counts[k - 1] * sizes[k - 1] >= 0) by (nonlinear_arith);
    } else if k < e {
        lemma_required_bounds(counts, sizes, k, e - 1);
        lemma_required_bounds(counts, sizes, e - 1, e - 1);
        assert(counts[e - 1] * sizes[e - 1] >= 0) by (nonlinear_arith);
    }
}

proof fn lemma_fit_count_range(trees: Seq<(usize, Vec<usize>)>, sizes: Seq<usize>, k: int)
    requires
        0 <= k,
    ensures
        0 <= fit_count(trees, sizes, k) <= k,
    decreases k,
{
    if k > 0 {
        lemma_fit_count_range(trees, sizes, k - 1);
    }
}

/// Counts the trees whose presents, at the given per-shape paper
/// sizes, fit within the tree's own size.
pub fn count_fitting(sizes: &Vec<usize>, trees: &Vec<(usize, Vec<usize>)>) -> (r: usize)
    requires
        forall|t: int|
            0 <= t < trees@.len() ==> required_paper(
                (#[trigger] trees@[t]).1@,
                sizes@,
                paired_len(trees@[t].1@, sizes@),
            ) <= usize::MAX,
    ensures
        r == fit_count(trees@, sizes@, trees@.len() as int),
{
    let nt = trees.len();
    let mut result: usize = 0;
    let mut t: usize = 0;
    while t < nt
        invariant
            nt == trees@.len(),
            t <= nt,
            forall|tt: int|
                0 <= tt < trees@.len() ==> required_paper(
                    (#[trigger] trees@[tt]).1@,
                    sizes@,
                    paired_len(trees@[tt].1@, sizes@),
                ) <= usize::MAX,
            result == fit_count(trees@, sizes@, t as int),
        decreases nt - t,
    {
        let tree_size = trees[t].0;
        let counts = &trees[t].1;
        let m = if counts.len() <= sizes.len() {
            counts.len()
        } else {
            sizes.len()
        };
        let ghost paired = paired_len(trees@[t as int].1@, sizes@);
        assert(m == paired);
        let mut required: usize = 0;
        let mut k: usize = 0;
        while k < m
            invariant
                nt == trees@.len(),
                t < nt,
                counts@ == trees@[t as int].1@,
                m == paired_len(counts@, sizes@),
                m <= counts@.len() && m <= sizes@.len(),
                required_paper(counts@, sizes@, m as int) <= usize::MAX,
                k <= m,
                required == required_paper(counts@, sizes@, k as int),
            decreases m - k,
        {
            proof {
                lemma_required_bounds(counts@, sizes@, k + 1, m as int);
                lemma_required_bounds(counts@, sizes@, k as int, k + 1);
            }
            required = required + counts[k] * sizes[k];
            k += 1;
        }
        proof {
            lemma_fit_count_range(trees@, sizes@, t as int);
        }
        if required <= tree_size {
            result += 1;
        }
        t += 1;
    }
    result
}

} // verus!
