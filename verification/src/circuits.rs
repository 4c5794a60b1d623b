use vstd::prelude::*;

verus! {

/// Parent forest well-formedness: parents stay in range, and a ghost
/// depth strictly drops from child to parent, bounded below, so every
/// parent chain reaches a root.
pub open spec fn uf_wf(parent: Seq<usize>, depth: Seq<int>) -> bool {
    &&& parent.len() <= usize::MAX
    &&& parent.len() == depth.len()
    &&& forall|i: int| 0 <= i < parent.len() ==> (#[trigger] parent[i]) < parent.len()
    &&& forall|i: int|
        0 <= i < parent.len() && (#[trigger] parent[i]) != i ==> depth[parent[i] as int]
            < depth[i]
    &&& forall|i: int| 0 <= i < depth.len() ==> -(parent.len() as int) <= #[trigger] depth[i]
}

/// The representative reached by following parents from i.
pub open spec fn root_of(parent: Seq<usize>, depth: Seq<int>, i: int) -> int
    decreases depth[i] + parent.len() when uf_wf(parent, depth) && 0 <= i < parent.len()
{
    if uf_wf(parent, depth) && 0 <= i < parent.len() && parent[i] != i {
        root_of(parent, depth, parent[i] as int)
    } else {
        i
    }
}

proof fn lemma_root_props(parent: Seq<usize>, depth: Seq<int>, i: int)
    requires
        uf_wf(parent, depth),
        0 <= i < parent.len(),
    ensures
        0 <= root_of(parent, depth, i) < parent.len(),
        parent[root_of(parent, depth, i)] == root_of(parent, depth, i),
        root_of(parent, depth, i) != i ==> depth[root_of(parent, depth, i)] < depth[i],
    decreases depth[i] + parent.len(),
{
    if parent[i] != i {
        lemma_root_props(parent, depth, parent[i] as int);
    }
}

/// A node whose representative is itself is a root.
proof fn lemma_root_self(parent: Seq<usize>, depth: Seq<int>, i: int)
    requires
        uf_wf(parent, depth),
        0 <= i < parent.len(),
        root_of(parent, depth, i) == i,
    ensures
        parent[i] == i as usize,
{
    if parent[i] != i {
        lemma_root_props(parent, depth, parent[i] as int);
    }
}

/// Repointing x straight at its own root keeps the forest well formed.
proof fn lemma_compress_wf(parent: Seq<usize>, depth: Seq<int>, x: int)
    requires
        uf_wf(parent, depth),
        0 <= x < parent.len(),
    ensures
        uf_wf(parent.update(x, root_of(parent, depth, x) as usize), depth),
{
    let r = root_of(parent, depth, x);
    lemma_root_props(parent, depth, x);
    let np = parent.update(x, r as usize);
    assert forall|i: int|
        0 <= i < np.len() && (#[trigger] np[i]) != i implies depth[np[i] as int] < depth[i] by {
        if i == x {
            assert(np[x] == r);
        } else {
            assert(np[i] == parent[i]);
        }
    }
    assert forall|i: int| 0 <= i < np.len() implies (#[trigger] np[i]) < np.len() by {
        if i != x {
            assert(np[i] == parent[i]);
        }
    }
}

/// Repointing x straight at its own root changes nobody's root.
proof fn lemma_compress(parent: Seq<usize>, depth: Seq<int>, x: int, j: int)
    requires
        uf_wf(parent, depth),
        0 <= x < parent.len(),
        0 <= j < parent.len(),
    ensures
        root_of(parent.update(x, root_of(parent, depth, x) as usize), depth, j) == root_of(
            parent,
            depth,
            j,
        ),
    decreases depth[j] + parent.len(),
{
    let r = root_of(parent, depth, x);
    let np = parent.update(x, r as usize);
    lemma_root_props(parent, depth, x);
    lemma_compress_wf(parent, depth, x);
    if j == x {
        if r == x {
            assert(np =~= parent);
        } else {
            assert(np[x] == r as usize);
            assert(root_of(np, depth, x) == root_of(np, depth, r));
            assert(np[r] == parent[r]);
            assert(parent[r] == r as usize);
            assert(root_of(np, depth, r) == r);
        }
    } else {
        assert(np[j] == parent[j]);
        if parent[j] != j {
            lemma_compress(parent, depth, x, parent[j] as int);
        }
    }
}

/// Sum over the root nodes of their recorded sizes.
pub open spec fn root_size_sum(parent: Seq<usize>, size: Seq<usize>, k: int) -> int
    decreases k,
{
    if k <= 0 {
        0
    } else {
        root_size_sum(parent, size, k - 1) + (if parent[k - 1] == (k - 1) as usize {
            size[k - 1] as int
        } else {
            0
        })
    }
}

/// Number of root nodes among the first k.
pub open spec fn roots_count(parent: Seq<usize>, k: int) -> int
    decreases k,
{
    if k <= 0 {
        0
    } else {
        roots_count(parent, k - 1) + (if parent[k - 1] == (k - 1) as usize {
            1int
        } else {
            0
        })
    }
}

proof fn lemma_rss_nonneg(parent: Seq<usize>, size: Seq<usize>, k: int)
    ensures
        0 <= root_size_sum(parent, size, k),
    decreases k,
{
    if k > 0 {
        lemma_rss_nonneg(parent, size, k - 1);
    }
}

proof fn lemma_rss_one(parent: Seq<usize>, size: Seq<usize>, k: int, a: int)
    requires
        parent.len() <= usize::MAX,
        k <= parent.len(),
        0 <= a < k,
        parent[a] == a as usize,
    ensures
        size[a] <= root_size_sum(parent, size, k),
    decreases k,
{
    lemma_rss_nonneg(parent, size, k);
    if a < k - 1 {
        lemma_rss_one(parent, size, k - 1, a);
    } else {
        lemma_rss_nonneg(parent, size, k - 1);
    }
}

/// Two distinct roots together hold at most the whole root-size sum.
proof fn lemma_rss_two(parent: Seq<usize>, size: Seq<usize>, k: int, a: int, b: int)
    requires
        parent.len() <= usize::MAX,
        k <= parent.len(),
        0 <= a < k,
        0 <= b < k,
        a != b,
        parent[a] == a as usize,
        parent[b] == b as usize,
    ensures
        size[a] + size[b] <= root_size_sum(parent, size, k),
    decreases k,
{
    if a == k - 1 || b == k - 1 {
        let other = if a == k - 1 {
            b
        } else {
            a
        };
        lemma_rss_one(parent, size, k - 1, other);
    } else {
        lemma_rss_two(parent, size, k - 1, a, b);
    }
}

/// Two distinct roots make the root count at least two.
proof fn lemma_count_two(parent: Seq<usize>, k: int, a: int, b: int)
    requires
        parent.len() <= usize::MAX,
        k <= parent.len(),
        0 <= a < k,
        0 <= b < k,
        a != b,
        parent[a] == a as usize,
        parent[b] == b as usize,
    ensures
        roots_count(parent, k) >= 2,
    decreases k,
{
    if a == k - 1 || b == k - 1 {
        let other = if a == k - 1 {
            b
        } else {
            a
        };
        lemma_count_one(parent, k - 1, other);
    } else {
        lemma_count_two(parent, k - 1, a, b);
    }
}

proof fn lemma_count_one(parent: Seq<usize>, k: int, a: int)
    requires
        parent.len() <= usize::MAX,
        k <= parent.len(),
        0 <= a < k,
        parent[a] == a as usize,
    ensures
        roots_count(parent, k) >= 1,
    decreases k,
{
    lemma_count_nonneg(parent, k - 1);
    if a < k - 1 {
        lemma_count_one(parent, k - 1, a);
    }
}

proof fn lemma_count_nonneg(parent: Seq<usize>, k: int)
    ensures
        0 <= roots_count(parent, k),
    decreases k,
{
    if k > 0 {
        lemma_count_nonneg(parent, k - 1);
    }
}

/// Changing one non-root node's parent to a different non-self value
/// leaves the root-size sum and the root count unchanged.
proof fn lemma_folds_shift(
    pre: Seq<usize>,
    post: Seq<usize>,
    size: Seq<usize>,
    k: int,
    x: int,
)
    requires
        pre.len() == post.len(),
        pre.len() <= usize::MAX,
        k <= pre.len(),
        0 <= x < pre.len(),
        pre[x] != x as usize,
        post[x] != x as usize,
        forall|i: int| 0 <= i < pre.len() && i != x ==> pre[i] == post[i],
    ensures
        root_size_sum(post, size, k) == root_size_sum(pre, size, k),
        roots_count(post, k) == roots_count(pre, k),
    decreases k,
{
    if k > 0 {
        lemma_folds_shift(pre, post, size, k - 1, x);
        if k - 1 == x {
            assert(pre[k - 1] != (k - 1) as usize);
            assert(post[k - 1] != (k - 1) as usize);
        } else {
            assert(pre[k - 1] == post[k - 1]);
        }
    }
}

/// Absorbing root b under root a: the sum is preserved (a grows by b's
/// share, b stops counting) and the root count drops by one.
proof fn lemma_folds_join(parent: Seq<usize>, size: Seq<usize>, k: int, a: int, b: int)
    requires
        parent.len() <= usize::MAX,
        0 <= a < parent.len(),
        0 <= b < parent.len(),
        a != b,
        parent[a] == a as usize,
        parent[b] == b as usize,
        size[a] + size[b] <= usize::MAX,
        size.len() == parent.len(),
        k <= parent.len(),
    ensures
        root_size_sum(
            parent.update(b, a as usize),
            size.update(a, (size[a] + size[b]) as usize),
            k,
        ) == root_size_sum(parent, size, k) + (if a < k {
            size[b] as int
        } else {
            0
        }) - (if b < k {
            size[b] as int
        } else {
            0
        }),
        roots_count(parent.update(b, a as usize), k) == roots_count(parent, k) - (if b < k {
            1int
        } else {
            0
        }),
    decreases k,
{
    if k > 0 {
        lemma_folds_join(parent, size, k - 1, a, b);
        let np = parent.update(b, a as usize);
        let ns = size.update(a, (size[a] + size[b]) as usize);
        if k - 1 == a {
            assert(np[a] == a as usize);
            assert(ns[a] == (size[a] + size[b]) as usize);
        } else if k - 1 == b {
            assert(np[b] == a as usize);
            assert(np[b] != b as usize);
        } else {
            assert(np[k - 1] == parent[k - 1]);
            assert(ns[k - 1] == size[k - 1]);
        }
    }
}

/// With identity parents everybody is a root.
proof fn lemma_folds_identity(parent: Seq<usize>, size: Seq<usize>, k: int)
    requires
        k <= parent.len(),
        forall|i: int| 0 <= i < parent.len() ==> (#[trigger] parent[i]) == i,
        forall|i: int| 0 <= i < parent.len() ==> (#[trigger] size[i]) == 1,
    ensures
        root_size_sum(parent, size, k) == (if k >= 0 {
            k
        } else {
            0
        }),
        roots_count(parent, k) == (if k >= 0 {
            k
        } else {
            0
        }),
    decreases k,
{
    if k > 0 {
        lemma_folds_identity(parent, size, k - 1);
    }
}

/// After the join update the forest stays well formed.
proof fn lemma_join_wf(parent: Seq<usize>, depth: Seq<int>, a: int, b: int, nda: int)
    requires
        uf_wf(parent, depth),
        0 <= a < parent.len(),
        0 <= b < parent.len(),
        a != b,
        parent[a] == a as usize,
        parent[b] == b as usize,
        nda <= depth[a],
        nda < depth[b],
        -(parent.len() as int) <= nda,
    ensures
        uf_wf(parent.update(b, a as usize), depth.update(a, nda)),
{
    let np = parent.update(b, a as usize);
    let nd = depth.update(a, nda);
    assert forall|i: int|
        0 <= i < np.len() && (#[trigger] np[i]) != i implies nd[np[i] as int] < nd[i] by {
        if i == b {
            assert(np[b] == a as usize);
        } else if i == a {
            assert(np[a] == parent[a]);
        } else {
            assert(np[i] == parent[i]);
            assert(nd[i] == depth[i]);
            if np[i] == a as usize {
                assert(depth[a] < depth[i]);
                assert(nd[np[i] as int] == nda);
            } else {
                assert(nd[np[i] as int] == depth[parent[i] as int]);
            }
        }
    }
    assert forall|i: int| 0 <= i < np.len() implies (#[trigger] np[i]) < np.len() by {
        if i != b {
            assert(np[i] == parent[i]);
        }
    }
}

/// After the join update, a and b's circuits answer to a; everyone
/// else keeps their root.
proof fn lemma_join_roots(parent: Seq<usize>, depth: Seq<int>, a: int, b: int, nda: int, j: int)
    requires
        uf_wf(parent, depth),
        0 <= a < parent.len(),
        0 <= b < parent.len(),
        a != b,
        parent[a] == a as usize,
        parent[b] == b as usize,
        nda <= depth[a],
        nda < depth[b],
        -(parent.len() as int) <= nda,
        0 <= j < parent.len(),
    ensures
        root_of(parent.update(b, a as usize), depth.update(a, nda), j) == (if root_of(
            parent,
            depth,
            j,
        ) == a || root_of(parent, depth, j) == b {
            a
        } else {
            root_of(parent, depth, j)
        }),
    decreases depth[j] + parent.len(),
{
    lemma_join_wf(parent, depth, a, b, nda);
    let np = parent.update(b, a as usize);
    let nd = depth.update(a, nda);
    if j == b {
        assert(np[b] == a as usize);
        assert(root_of(np, nd, b) == root_of(np, nd, a));
        assert(np[a] == parent[a]);
        assert(root_of(np, nd, a) == a);
        assert(root_of(parent, depth, b) == b);
    } else if parent[j] == j {
        assert(np[j] == parent[j]);
        assert(root_of(np, nd, j) == j);
        assert(root_of(parent, depth, j) == j);
    } else {
        assert(np[j] == parent[j]);
        lemma_join_roots(parent, depth, a, b, nda, parent[j] as int);
        assert(root_of(np, nd, j) == root_of(np, nd, np[j] as int));
        assert(root_of(parent, depth, j) == root_of(parent, depth, parent[j] as int));
    }
}

/// Disjoint-set union over junction boxes 0..n, joined by cable runs;
/// `find` returns a circuit's representative, with path compression.
pub struct CircuitFinder {
    pub parent: Vec<usize>,
    pub size: Vec<usize>,
    pub num_circuits: usize,
    pub depth: Ghost<Seq<int>>,
}

impl CircuitFinder {
    pub open spec fn n(self) -> int {
        self.parent@.len() as int
    }

    pub open spec fn wf(self) -> bool {
        &&& uf_wf(self.parent@, self.depth@)
        &&& self.size@.len() == self.parent@.len()
        &&& forall|i: int|
            0 <= i < self.depth@.len() ==> self.num_circuits - self.n()
                <= #[trigger] self.depth@[i]
        &&& root_size_sum(self.parent@, self.size@, self.n()) == self.n()
        &&& roots_count(self.parent@, self.n()) <= self.num_circuits
    }

    /// The representative of x's circuit, as a spec value.
    pub open spec fn repr(self, x: int) -> int {
        root_of(self.parent@, self.depth@, x)
    }

    pub fn new(n: usize) -> (r: CircuitFinder)
        ensures
            r.wf(),
            r.n() == n,
            r.num_circuits == n,
            forall|i: int| 0 <= i < n ==> #[trigger] r.repr(i) == i,
            forall|i: int| 0 <= i < n ==> (#[trigger] r.size@[i]) == 1,
    {
        let mut parent: Vec<usize> = Vec::new();
        let mut size: Vec<usize> = Vec::new();
        let mut i: usize = 0;
        while i < n
            invariant
                i <= n,
                parent@.len() == i,
                size@.len() == i,
                forall|k: int| 0 <= k < i ==> (#[trigger] parent@[k]) == k,
                forall|k: int| 0 <= k < i ==> (#[trigger] size@[k]) == 1,
            decreases n - i,
        {
            parent.push(i);
            size.push(1);
            i += 1;
        }
        let ghost depth = Seq::new(n as nat, |k: int| 0int);
        let r = CircuitFinder { parent, size, num_circuits: n, depth: Ghost(depth) };
        proof {
            lemma_folds_identity(r.parent@, r.size@, n as int);
            assert forall|k: int| 0 <= k < n implies #[trigger] r.repr(k) == k by {
                assert(r.parent@[k] == k);
            }
        }
        r
    }

    /// The representative of x's circuit; every node on the walk is
    /// repointed at it, which changes nobody's circuit.
    pub fn find(&mut self, x: usize) -> (r: usize)
        requires
            old(self).wf(),
            x < old(self).n(),
        ensures
            final(self).wf(),
            final(self).n() == old(self).n(),
            final(self).size@ == old(self).size@,
            final(self).num_circuits == old(self).num_circuits,
            r < old(self).n(),
            r == old(self).repr(x as int),
            forall|j: int|
                0 <= j < old(self).n() ==> #[trigger] final(self).repr(j) == old(self).repr(j),
    {
        let ghost orig = *old(self);
        let n = self.parent.len();
        let mut cur = x;
        while self.parent[cur] != cur
            invariant
                self.wf(),
                *self == orig,
                n == self.parent@.len(),
                cur < n,
                root_of(self.parent@, self.depth@, cur as int) == root_of(
                    self.parent@,
                    self.depth@,
                    x as int,
                ),
            decreases self.depth@[cur as int] + n,
        {
            cur = self.parent[cur];
        }
        let root = cur;
        proof {
            assert(root == root_of(orig.parent@, orig.depth@, x as int));
            lemma_root_props(orig.parent@, orig.depth@, x as int);
        }
        let mut cur = x;
        while self.parent[cur] != cur
            invariant
                self.wf(),
                self.size@ == orig.size@,
                self.depth@ == orig.depth@,
                self.num_circuits == orig.num_circuits,
                n == self.parent@.len(),
                cur < n,
                root < n,
                root == root_of(self.parent@, self.depth@, cur as int),
                forall|j: int|
                    0 <= j < n ==> #[trigger] root_of(self.parent@, self.depth@, j) == root_of(
                        orig.parent@,
                        orig.depth@,
                        j,
                    ),
            decreases self.depth@[cur as int] + n,
        {
            let ghost pre = self.parent@;
            let next = self.parent[cur];
            proof {
                lemma_root_props(pre, self.depth@, cur as int);
                lemma_compress_wf(pre, self.depth@, cur as int);
            }
            self.parent.set(cur, root);
            proof {
                assert(self.parent@ == pre.update(
                    cur as int,
                    root_of(pre, self.depth@, cur as int) as usize,
                ));
                assert forall|j: int|
                    0 <= j < n implies #[trigger] root_of(self.parent@, self.depth@, j)
                    == root_of(orig.parent@, orig.depth@, j) by {
                    lemma_compress(pre, self.depth@, cur as int, j);
                }
                assert(root != cur);
                lemma_folds_shift(pre, self.parent@, self.size@, n as int, cur as int);
                lemma_compress(pre, self.depth@, cur as int, next as int);
                assert(root_of(self.parent@, self.depth@, next as int) == root_of(
                    pre,
                    self.depth@,
                    next as int,
                ));
            }
            cur = next;
        }
        root
    }

    /// Joins the circuits of x and y: the smaller circuit's root is
    /// absorbed under the larger circuit's root, and the circuit count
    /// drops by one exactly when the two circuits were distinct.
    pub fn join(&mut self, x: usize, y: usize)
        requires
            old(self).wf(),
            x < old(self).n(),
            y < old(self).n(),
        ensures
            final(self).wf(),
            final(self).n() == old(self).n(),
            old(self).repr(x as int) == old(self).repr(y as int) ==> final(self).num_circuits
                == old(self).num_circuits && final(self).size@ == old(self).size@ && (forall|
                j: int,
            |
                0 <= j < old(self).n() ==> #[trigger] final(self).repr(j) == old(self).repr(j)),
            old(self).repr(x as int) != old(self).repr(y as int) ==> final(self).num_circuits
                == old(self).num_circuits - 1 && final(self).repr(x as int) == final(self).repr(
                y as int,
            ) && (forall|j: int|
                0 <= j < old(self).n() ==> #[trigger] final(self).repr(j) == (if old(self).repr(
                    j,
                ) == old(self).repr(x as int) || old(self).repr(j) == old(self).repr(y as int) {
                    final(self).repr(x as int)
                } else {
                    old(self).repr(j)
                })),
    {
        let n = self.parent.len();
        let mut x_root = self.find(x);
        let ghost st1 = *self;
        let mut y_root = self.find(y);
        let ghost mid = *self;
        proof {
            lemma_root_props(old(self).parent@, old(self).depth@, x as int);
            lemma_root_props(old(self).parent@, old(self).depth@, y as int);
            assert forall|j: int| 0 <= j < n implies #[trigger] mid.repr(j) == old(self).repr(
                j,
            ) by {
                assert(mid.repr(j) == st1.repr(j));
                assert(st1.repr(j) == old(self).repr(j));
            }
            assert(old(self).repr(x_root as int) == x_root as int);
            assert(old(self).repr(y_root as int) == y_root as int);
            assert(mid.repr(x_root as int) == x_root as int);
            assert(mid.repr(y_root as int) == y_root as int);
        }
        if x_root == y_root {
            return ;
        }
        proof {
            lemma_root_self(self.parent@, self.depth@, x_root as int);
            lemma_root_self(self.parent@, self.depth@, y_root as int);
            lemma_rss_two(self.parent@, self.size@, n as int, x_root as int, y_root as int);
            lemma_count_two(self.parent@, n as int, x_root as int, y_root as int);
        }
        if self.size[x_root] < self.size[y_root] {
            let t = x_root;
            x_root = y_root;
            y_root = t;
        }
        proof {
            lemma_root_self(mid.parent@, mid.depth@, x_root as int);
            lemma_root_self(mid.parent@, mid.depth@, y_root as int);
            lemma_rss_two(mid.parent@, mid.size@, n as int, x_root as int, y_root as int);
        }
        let ghost pre_p = self.parent@;
        let ghost pre_s = self.size@;
        let ghost pre_d = self.depth@;
        let sx = self.size[x_root];
        let sy = self.size[y_root];
        self.parent.set(y_root, x_root);
        self.size.set(x_root, sx + sy);
        proof {
            let a = x_root as int;
            let b = y_root as int;
            let dx = pre_d[a];
            let dy = pre_d[b];
            let ndx = if dx <= dy - 1 {
                dx
            } else {
                dy - 1
            };
            self.depth@ = pre_d.update(a, ndx);
            lemma_join_wf(pre_p, pre_d, a, b, ndx);
            lemma_folds_join(pre_p, pre_s, n as int, a, b);
            assert forall|j: int| 0 <= j < n implies root_of(self.parent@, self.depth@, j) == (
            if root_of(pre_p, pre_d, j) == a || root_of(pre_p, pre_d, j) == b {
                a
            } else {
                root_of(pre_p, pre_d, j)
            }) by {
                lemma_join_roots(pre_p, pre_d, a, b, ndx, j);
            }
        }
        self.num_circuits = self.num_circuits - 1;
        proof {
            assert(self.repr(x_root as int) == x_root as int);
            assert(self.repr(x as int) == x_root as int) by {
                assert(mid.repr(x as int) == old(self).repr(x as int));
                assert(old(self).repr(x as int) == x_root as int || old(self).repr(x as int)
                    == y_root as int);
            }
            assert(self.repr(y as int) == x_root as int) by {
                assert(mid.repr(y as int) == old(self).repr(y as int));
            }
            assert forall|j: int| 0 <= j < n implies #[trigger] self.repr(j) == (if old(
                self,
            ).repr(j) == old(self).repr(x as int) || old(self).repr(j) == old(self).repr(
                y as int,
            ) {
                self.repr(x as int)
            } else {
                old(self).repr(j)
            }) by {
                assert(mid.repr(j) == old(self).repr(j));
            }
        }
    }

    /// The number of junction boxes recorded for x's circuit.
    pub fn circuit_size(&mut self, x: usize) -> (r: usize)
        requires
            old(self).wf(),
            x < old(self).n(),
        ensures
            final(self).wf(),
            final(self).n() == old(self).n(),
            final(self).size@ == old(self).size@,
            final(self).num_circuits == old(self).num_circuits,
            forall|j: int|
                0 <= j < old(self).n() ==> #[trigger] final(self).repr(j) == old(self).repr(j),
            r == old(self).size@[old(self).repr(x as int)],
    {
        let root = self.find(x);
        proof {
            lemma_root_props(old(self).parent@, old(self).depth@, x as int);
        }
        self.size[root]
    }

    /// All junction boxes sit in one circuit.
    pub fn all_connected(&self) -> (r: bool)
        ensures
            r == (self.num_circuits == 1),
    {
        self.num_circuits == 1
    }
}

} // verus!
