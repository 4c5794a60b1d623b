use vstd::prelude::*;
use crate::parsing::{all_digits, digits_value, parse_usize_str};

verus! {

/// A failure while reading a machine description.
#[derive(PartialEq, Eq, Structural, Debug, Copy, Clone)]
pub enum MachineError {
    BadLine,
}

/// One indicator-light machine: the target light pattern, the button
/// transitions as bit masks, and the joltage targets and counters.
pub struct Machine {
    pub target: u16,
    pub transitions: Vec<u16>,
    pub target_joltage: Vec<u16>,
    pub joltage_transitions: Vec<Vec<u16>>,
}

/// The light pattern read from the first k characters: bit i is set
/// iff character i is '#'.
pub open spec fn target_spec(s: Seq<char>, k: int) -> u16
    decreases k,
{
    if k <= 0 {
        0u16
    } else {
        target_spec(s, k - 1) ^ (if s[k - 1] == '#' {
            1u16 << ((k - 1) as u16)
        } else {
            0u16
        })
    }
}

pub open spec fn is_sep(c: char, a: char, b: char) -> bool {
    c == a || c == b || c == ','
}

/// First index at or after i holding one of the separators a, b, ','.
pub open spec fn next_sep(s: Seq<char>, a: char, b: char, i: int) -> int
    decreases s.len() - i,
{
    if i < 0 || i >= s.len() {
        s.len() as int
    } else if is_sep(s[i], a, b) {
        i
    } else {
        next_sep(s, a, b, i + 1)
    }
}

pub proof fn lemma_next_sep_props(s: Seq<char>, a: char, b: char, i: int)
    requires
        0 <= i <= s.len(),
    ensures
        i <= next_sep(s, a, b, i) <= s.len(),
        next_sep(s, a, b, i) < s.len() ==> is_sep(s[next_sep(s, a, b, i)], a, b),
        forall|k: int| i <= k < next_sep(s, a, b, i) ==> !is_sep(s[k], a, b),
    decreases s.len() - i,
{
    if i < s.len() && !is_sep(s[i], a, b) {
        lemma_next_sep_props(s, a, b, i + 1);
    }
}

fn next_sep_str(s: &str, a: char, b: char, i: usize) -> (r: usize)
    requires
        i <= s@.len(),
    ensures
        r == next_sep(s@, a, b, i as int),
{
    let n = s.unicode_len();
    let mut k = i;
    while k < n
        invariant
            i <= k <= n == s@.len(),
            next_sep(s@, a, b, i as int) == next_sep(s@, a, b, k as int),
        decreases n - k,
    {
        let c = s.get_char(k);
        if c == a || c == b || c == ',' {
            return k;
        }
        k += 1;
    }
    k
}

/// The numbers listed in `s` between separators a, b and commas, in
/// order; a piece that is not a u16 numeral is dropped, as a failed
/// parse is.
pub open spec fn u16list_spec(s: Seq<char>, a: char, b: char, i: int) -> Seq<u16>
    decreases s.len() - i,
{
    if i < 0 || i >= s.len() {
        Seq::empty()
    } else if is_sep(s[i], a, b) {
        u16list_spec(s, a, b, i + 1)
    } else {
        let e = next_sep(s, a, b, i + 1);
        if i < e <= s.len() {
            (if all_digits(s.subrange(i, e)) && digits_value(s.subrange(i, e)) <= u16::MAX {
                seq![digits_value(s.subrange(i, e)) as u16]
            } else {
                Seq::empty()
            }) + u16list_spec(s, a, b, e)
        } else {
            Seq::empty()
        }
    }
}

/// Collects the u16 numerals of `s` between the given separators.
fn parse_u16_list(s: &str, a: char, b: char) -> (r: Vec<u16>)
    ensures
        r@ == u16list_spec(s@, a, b, 0),
{
    let n = s.unicode_len();
    let mut out: Vec<u16> = Vec::new();
    let mut i: usize = 0;
    while i < n
        invariant
            i <= n == s@.len(),
            u16list_spec(s@, a, b, 0) == out@ + u16list_spec(s@, a, b, i as int),
        decreases n - i,
    {
        let c = s.get_char(i);
        if c == a || c == b || c == ',' {
            i += 1;
        } else {
            proof {
                lemma_next_sep_props(s@, a, b, i as int + 1);
            }
            let e = next_sep_str(s, a, b, i + 1);
            let ghost tok = s@.subrange(i as int, e as int);
            match parse_usize_str(s, i, e) {
                Some(v) => {
                    if v <= 65535 {
                        let ghost prev = out@;
                        out.push(v as u16);
                        proof {
                            assert(u16list_spec(s@, a, b, i as int) =~= seq![
                                digits_value(tok) as u16,
                            ] + u16list_spec(s@, a, b, e as int));
                            assert(out@ =~= prev.push(digits_value(tok) as u16));
                            assert(out@ + u16list_spec(s@, a, b, e as int) =~= prev
                                + u16list_spec(s@, a, b, i as int));
                        }
                    } else {
                        proof {
                            assert(digits_value(tok) > u16::MAX);
                            assert(u16list_spec(s@, a, b, i as int) =~= u16list_spec(
                                s@,
                                a,
                                b,
                                e as int,
                            ));
                        }
                    }
                },
                None => {
                    proof {
                        assert(!(all_digits(tok) && digits_value(tok) <= u16::MAX)) by {
                            if all_digits(tok) && digits_value(tok) <= u16::MAX {
                                assert(digits_value(tok) <= usize::MAX);
                            }
                        }
                        assert(u16list_spec(s@, a, b, i as int) =~= u16list_spec(
                            s@,
                            a,
                            b,
                            e as int,
                        ));
                    }
                },
            }
            i = e;
        }
    }
    proof {
        assert(u16list_spec(s@, a, b, i as int) =~= Seq::empty());
        assert(out@ =~= out@ + Seq::<u16>::empty());
    }
    out
}

/// Bit mask with bit v set for each listed value v.
pub open spec fn or_fold(q: Seq<u16>) -> u16
    decreases q.len(),
{
    if q.len() == 0 {
        0u16
    } else {
        or_fold(q.drop_last()) | (1u16 << q.last())
    }
}


/// The light state reachable from all-off in exactly n button presses:
/// each press XORs one transition mask onto the state.
pub open spec fn reach_in(trans: Seq<u16>, s: u16, n: int) -> bool
    decreases n,
{
    if n <= 0 {
        s == 0
    } else {
        exists|j: int| 0 <= j < trans.len() && reach_in(trans, s ^ (#[trigger] trans[j]), n - 1)
    }
}

proof fn lemma_xor_cancel(a: u16, b: u16)
    ensures
        ((a ^ b) ^ b) == a,
{
    assert(((a ^ b) ^ b) == a) by (bit_vector);
}

/// Pressing one more button extends a reachable state by one step.
proof fn lemma_reach_step(trans: Seq<u16>, p: u16, n: int, j: int)
    requires
        n >= 0,
        reach_in(trans, p, n),
        0 <= j < trans.len(),
    ensures
        reach_in(trans, p ^ trans[j], n + 1),
{
    lemma_xor_cancel(p, trans[j]);
    assert((p ^ trans[j]) ^ trans[j] == p);
}

/// Number of true entries among the first k.
pub open spec fn count_true(vs: Seq<bool>, k: int) -> int
    decreases k,
{
    if k <= 0 {
        0
    } else {
        count_true(vs, k - 1) + (if vs[k - 1] {
            1int
        } else {
            0
        })
    }
}

proof fn lemma_count_true_le(vs: Seq<bool>, k: int)
    requires
        k >= 0,
    ensures
        0 <= count_true(vs, k) <= k,
    decreases k,
{
    if k > 0 {
        lemma_count_true_le(vs, k - 1);
    }
}

proof fn lemma_count_true_update(vs: Seq<bool>, i: int, k: int)
    requires
        0 <= i < vs.len(),
        !vs[i],
        k <= vs.len(),
    ensures
        count_true(vs.update(i, true), k) == count_true(vs, k) + (if i < k {
            1int
        } else {
            0
        }),
    decreases k,
{
    if k > 0 {
        lemma_count_true_update(vs, i, k - 1);
        let u = vs.update(i, true);
        if k - 1 == i {
            assert(u[k - 1]);
        } else {
            assert(u[k - 1] == vs[k - 1]);
        }
    }
}


proof fn lemma_count_true_update_frame(pre: Seq<bool>, post: Seq<bool>, k: int)
    requires
        0 <= k <= pre.len(),
        post.len() >= k,
        forall|i: int| 0 <= i < k ==> pre[i] == post[i],
    ensures
        count_true(post, k) == count_true(pre, k),
    decreases k,
{
    if k > 0 {
        lemma_count_true_update_frame(pre, post, k - 1);
    }
}

/// States produced by the button pairs scanned so far: a frontier
/// entry before position f, or entry f with a button before j.
pub open spec fn gen_pref(frontier: Seq<u16>, trans: Seq<u16>, f: int, j: int, sp: u16) -> bool {
    exists|a: int, b: int|
        0 <= a < frontier.len() && 0 <= b < trans.len() && (a < f || (a == f && b < j)) && sp == (
        #[trigger] frontier[a]) ^ (#[trigger] trans[b])
}

proof fn lemma_gen_mono(
    frontier: Seq<u16>,
    trans: Seq<u16>,
    f1: int,
    j1: int,
    f2: int,
    j2: int,
    q: u16,
)
    requires
        gen_pref(frontier, trans, f1, j1, q),
        f1 < f2 || (f1 == f2 && j1 <= j2),
    ensures
        gen_pref(frontier, trans, f2, j2, q),
{
    let (a, b) = choose|a: int, b: int|
        0 <= a < frontier.len() && 0 <= b < trans.len() && (a < f1 || (a == f1 && b < j1)) && q
            == (#[trigger] frontier[a]) ^ (#[trigger] trans[b]);
    assert(a < f2 || (a == f2 && b < j2));
}

/// Once a breadth-first level turns up nothing new, the visited set is
/// closed: every reachable state, however many presses away, is in it.
proof fn lemma_closed(trans: Seq<u16>, vs: Seq<bool>, d: int, s: u16, n: int)
    requires
        d >= 0,
        vs.len() == 0x10000,
        forall|q: u16|
            (#[trigger] vs[q as int]) <==> exists|m: int|
                0 <= m <= d && #[trigger] reach_in(trans, q, m),
        forall|q: u16|
            #[trigger] reach_in(trans, q, d) ==> exists|m: int|
                0 <= m < d && #[trigger] reach_in(trans, q, m),
        n >= 0,
        reach_in(trans, s, n),
    ensures
        vs[s as int],
    decreases n,
{
    if n <= d {
        assert(0 <= n <= d && reach_in(trans, s, n));
        assert(vs[s as int]);
    } else {
        let j = choose|j: int|
            0 <= j < trans.len() && reach_in(trans, s ^ (#[trigger] trans[j]), n - 1);
        let p = s ^ trans[j];
        lemma_closed(trans, vs, d, p, n - 1);
        let m = choose|m: int| 0 <= m <= d && #[trigger] reach_in(trans, p, m);
        lemma_xor_cancel(s, trans[j]);
        if m + 1 <= d {
            lemma_reach_step(trans, p, m, j);
            assert(reach_in(trans, s, m + 1));
        } else {
            assert(reach_in(trans, p, d));
            let m2 = choose|m2: int| 0 <= m2 < d && #[trigger] reach_in(trans, p, m2);
            lemma_reach_step(trans, p, m2, j);
            assert(reach_in(trans, s, m2 + 1));
            assert(0 <= m2 + 1 <= d);
        }
    }
}

impl Machine {
    /// Reads a light pattern such as "#..#" into a bit mask: bit i is
    /// set iff character i is '#'.
    pub fn target_from_str(s: &str) -> (r: Result<u16, MachineError>)
        requires
            s@.len() <= 16,
        ensures
            r == Ok::<u16, MachineError>(target_spec(s@, s@.len() as int)),
    {
        let n = s.unicode_len();
        let mut acc: u16 = 0;
        let mut i: usize = 0;
        while i < n
            invariant
                i <= n == s@.len() <= 16,
                acc == target_spec(s@, i as int),
            decreases n - i,
        {
            let c = s.get_char(i);
            let mask: u16 = if c == '#' {
                1u16 << (i as u16)
            } else {
                0u16
            };
            acc = acc ^ mask;
            i += 1;
        }
        Ok(acc)
    }

    /// Reads a button group such as "(0,1,2)" into a transition mask:
    /// one bit per listed light index.
    pub fn transition_from_str(s: &str) -> (r: Result<u16, MachineError>)
        requires
            forall|k: int|
                0 <= k < u16list_spec(s@, '(', ')', 0).len() ==> (#[trigger] u16list_spec(
                    s@,
                    '(',
                    ')',
                    0,
                )[k]) <= 15,
        ensures
            r == Ok::<u16, MachineError>(or_fold(u16list_spec(s@, '(', ')', 0))),
    {
        let vals = parse_u16_list(s, '(', ')');
        let m = vals.len();
        let mut acc: u16 = 0;
        let mut k: usize = 0;
        while k < m
            invariant
                m == vals@.len(),
                k <= m,
                vals@ == u16list_spec(s@, '(', ')', 0),
                forall|t: int| 0 <= t < vals@.len() ==> (#[trigger] vals@[t]) <= 15,
                acc == or_fold(vals@.take(k as int)),
            decreases m - k,
        {
            proof {
                assert(vals@.take(k + 1).drop_last() =~= vals@.take(k as int));
                assert(vals@.take(k + 1).last() == vals@[k as int]);
            }
            acc = acc | (1u16 << vals[k]);
            k += 1;
        }
        proof {
            assert(vals@.take(m as int) =~= vals@);
        }
        Ok(acc)
    }


    /// Fewest button presses that turn the all-off lights into the
    /// target pattern: a breadth-first search over the light states,
    /// one level per press count.  None when no sequence of presses
    /// reaches the target.
    #[verifier::rlimit(100)]
    pub fn fewest_steps_to_target(&self) -> (r: Option<usize>)
        ensures
            (match r {
                Some(k) => reach_in(self.transitions@, self.target, k as int) && (forall|n: int|
                    0 <= n < k ==> !reach_in(self.transitions@, self.target, n)),
                None => forall|n: int| n >= 0 ==> !reach_in(self.transitions@, self.target, n),
            }),
    {
        let ghost trans = self.transitions@;
        if self.target == 0 {
            return Some(0);
        }
        let mut visited: Vec<bool> = Vec::new();
        let mut b: usize = 0;
        while b < 0x10000
            invariant
                b <= 0x10000,
                visited@.len() == b,
                forall|i: int| 0 <= i < b ==> !(#[trigger] visited@[i]),
                count_true(visited@, b as int) == 0,
            decreases 0x10000 - b,
        {
            let ghost prev = visited@;
            visited.push(false);
            proof {
                lemma_count_true_update_frame(prev, visited@, b as int);
            }
            b += 1;
        }
        proof {
            assert(!visited@[0]);
            lemma_count_true_update(visited@, 0, 0x10000);
        }
        visited.set(0, true);
        let mut count: usize = 1;
        let mut frontier: Vec<u16> = Vec::new();
        frontier.push(0u16);
        let mut d: usize = 0;
        proof {
            assert forall|q: u16| (#[trigger] visited@[q as int]) <==> exists|m: int|
                0 <= m <= 0 && #[trigger] reach_in(trans, q, m) by {
                if q == 0 {
                    assert(reach_in(trans, 0u16, 0));
                    assert(visited@[0]);
                } else {
                    assert(!visited@[q as int]);
                    if exists|m: int| 0 <= m <= 0 && #[trigger] reach_in(trans, q, m) {
                        let m = choose|m: int| 0 <= m <= 0 && #[trigger] reach_in(trans, q, m);
                        assert(q == 0);
                    }
                }
            }
            assert forall|q: u16|
                #[trigger] frontier@.contains(q) implies (reach_in(trans, q, 0) && !(exists|
                    m: int,
                |
                    0 <= m < 0 && #[trigger] reach_in(trans, q, m))) by {
                let k = choose|k: int| 0 <= k < frontier@.len() && frontier@[k] == q;
                assert(q == 0);
                assert(reach_in(trans, 0u16, 0));
            }
            assert forall|q: u16|
                (reach_in(trans, q, 0) && !(exists|m: int|
                    0 <= m < 0 && #[trigger] reach_in(trans, q, m)))
                    implies #[trigger] frontier@.contains(q) by {
                assert(q == 0);
                assert(frontier@[0] == 0u16);
            }
        }
        while frontier.len() > 0
            invariant
                trans == self.transitions@,
                self.target != 0,
                visited@.len() == 0x10000,
                count == count_true(visited@, 0x10000),
                count <= 0x10000,
                count >= d + 1 || frontier@.len() == 0,
                forall|q: u16|
                    (#[trigger] visited@[q as int]) <==> exists|m: int|
                        0 <= m <= d && #[trigger] reach_in(trans, q, m),
                forall|q: u16|
                    #[trigger] frontier@.contains(q) <==> (reach_in(trans, q, d as int) && !(
                    exists|m: int| 0 <= m < d && #[trigger] reach_in(trans, q, m))),
                forall|n: int| 0 <= n < d ==> !reach_in(trans, self.target, n),
            decreases 0x10000 - count, frontier@.len(),
        {
            let flen = frontier.len();
            let mut f: usize = 0;
            while f < flen
                invariant
                    trans == self.transitions@,
                    flen == frontier@.len(),
                    f <= flen,
                    forall|k: int| 0 <= k < f ==> (#[trigger] frontier@[k]) != self.target,
                    forall|q: u16|
                        #[trigger] frontier@.contains(q) <==> (reach_in(trans, q, d as int) && !(
                        exists|m: int| 0 <= m < d && #[trigger] reach_in(trans, q, m))),
                    forall|n: int| 0 <= n < d ==> !reach_in(trans, self.target, n),
                decreases flen - f,
            {
                if frontier[f] == self.target {
                    proof {
                        assert(frontier@.contains(self.target));
                        assert(reach_in(trans, self.target, d as int));
                    }
                    return Some(d);
                }
                f += 1;
            }
            proof {
                assert(!frontier@.contains(self.target)) by {
                    if frontier@.contains(self.target) {
                        let k = choose|k: int|
                            0 <= k < frontier@.len() && frontier@[k] == self.target;
                    }
                }
                assert(!reach_in(trans, self.target, d as int)) by {
                    if reach_in(trans, self.target, d as int) {
                        assert(frontier@.contains(self.target));
                    }
                }
            }
            let ghost old_vs = visited@;
            let ghost old_front = frontier@;
            let ghost old_count = count as int;
            let tlen = self.transitions.len();
            let mut next: Vec<u16> = Vec::new();
            let mut f: usize = 0;
            while f < flen
                invariant
                    trans == self.transitions@,
                    tlen == trans.len(),
                    flen == frontier@.len(),
                    frontier@ == old_front,
                    f <= flen,
                    visited@.len() == 0x10000,
                    count == count_true(visited@, 0x10000),
                    count <= 0x10000,
                    count >= old_count,
                    old_count == count_true(old_vs, 0x10000),
                    old_vs.len() == 0x10000,
                    forall|q: u16|
                        (#[trigger] visited@[q as int]) <==> (old_vs[q as int] || gen_pref(
                            old_front,
                            trans,
                            f as int,
                            0,
                            q,
                        )),
                    forall|q: u16|
                        #[trigger] next@.contains(q) <==> (!old_vs[q as int] && gen_pref(
                            old_front,
                            trans,
                            f as int,
                            0,
                            q,
                        )),
                    count > old_count || next@.len() == 0,
                decreases flen - f,
            {
                let sv = frontier[f];
                let mut j: usize = 0;
                while j < tlen
                    invariant
                        trans == self.transitions@,
                        tlen == trans.len(),
                        flen == frontier@.len(),
                        frontier@ == old_front,
                        f < flen,
                        sv == old_front[f as int],
                        j <= tlen,
                        visited@.len() == 0x10000,
                        count == count_true(visited@, 0x10000),
                        count <= 0x10000,
                        count >= old_count,
                        old_count == count_true(old_vs, 0x10000),
                        old_vs.len() == 0x10000,
                        forall|q: u16|
                            (#[trigger] visited@[q as int]) <==> (old_vs[q as int] || gen_pref(
                                old_front,
                                trans,
                                f as int,
                                j as int,
                                q,
                            )),
                        forall|q: u16|
                            #[trigger] next@.contains(q) <==> (!old_vs[q as int] && gen_pref(
                                old_front,
                                trans,
                                f as int,
                                j as int,
                                q,
                            )),
                        count > old_count || next@.len() == 0,
                    decreases tlen - j,
                {
                    let ns = sv ^ self.transitions[j];
                    let ghost pre_vs = visited@;
                    let ghost pre_next = next@;
                    proof {
                        assert(gen_pref(old_front, trans, f as int, j + 1, ns)) by {
                            assert(ns == (#[trigger] old_front[f as int]) ^ (
                            #[trigger] trans[j as int]));
                        }
                    }
                    if !visited[ns as usize] {
                        proof {
                            lemma_count_true_update(visited@, ns as int, 0x10000);
                            lemma_count_true_le(visited@.update(ns as int, true), 0x10000);
                        }
                        visited.set(ns as usize, true);
                        next.push(ns);
                        count += 1;
                        proof {
                            assert forall|q: u16|
                                (#[trigger] visited@[q as int]) <==> (old_vs[q as int]
                                || gen_pref(old_front, trans, f as int, j + 1, q)) by {
                                if q == ns {
                                    assert(visited@[ns as int]);
                                } else {
                                    assert(visited@[q as int] == pre_vs[q as int]);
                                    if gen_pref(old_front, trans, f as int, j + 1, q) {
                                        let (a, bb) = choose|a: int, bb: int|
                                            0 <= a < old_front.len() && 0 <= bb < trans.len() && (
                                            a < f || (a == f && bb < j + 1)) && q == (
                                            #[trigger] old_front[a]) ^ (#[trigger] trans[bb]);
                                        if a == f && bb == j {
                                            assert(q == ns);
                                            assert(false);
                                        }
                                        assert(gen_pref(old_front, trans, f as int, j as int, q));
                                    }
                                    if old_vs[q as int] || gen_pref(
                                        old_front,
                                        trans,
                                        f as int,
                                        j as int,
                                        q,
                                    ) {
                                        assert(pre_vs[q as int]);
                                        if gen_pref(old_front, trans, f as int, j as int, q) {
                                            lemma_gen_mono(
                                                old_front,
                                                trans,
                                                f as int,
                                                j as int,
                                                f as int,
                                                j + 1,
                                                q,
                                            );
                                        }
                                    }
                                }
                            }
                            assert forall|q: u16|
                                #[trigger] next@.contains(q) <==> (!old_vs[q as int] && gen_pref(
                                    old_front,
                                    trans,
                                    f as int,
                                    j + 1,
                                    q,
                                )) by {
                                if next@.contains(q) {
                                    let k = choose|k: int|
                                        0 <= k < next@.len() && next@[k] == q;
                                    if k < pre_next.len() {
                                        assert(pre_next[k] == q);
                                        assert(pre_next.contains(q));
                                        lemma_gen_mono(
                                            old_front,
                                            trans,
                                            f as int,
                                            j as int,
                                            f as int,
                                            j + 1,
                                            q,
                                        );
                                    } else {
                                        assert(q == ns);
                                        assert(!pre_vs[ns as int]);
                                        assert(!old_vs[ns as int]);
                                    }
                                }
                                if !old_vs[q as int] && gen_pref(
                                    old_front,
                                    trans,
                                    f as int,
                                    j + 1,
                                    q,
                                ) {
                                    if q == ns {
                                        assert(next@[next@.len() - 1] == ns);
                                        assert(next@.contains(q));
                                    } else {
                                        let (a, bb) = choose|a: int, bb: int|
                                            0 <= a < old_front.len() && 0 <= bb < trans.len() && (
                                            a < f || (a == f && bb < j + 1)) && q == (
                                            #[trigger] old_front[a]) ^ (#[trigger] trans[bb]);
                                        if a == f && bb == j {
                                            assert(q == ns);
                                            assert(false);
                                        }
                                        assert(gen_pref(old_front, trans, f as int, j as int, q));
                                        assert(pre_next.contains(q));
                                        let k = choose|k: int|
                                            0 <= k < pre_next.len() && pre_next[k] == q;
                                        assert(next@[k] == q);
                                        assert(next@.contains(q));
                                    }
                                }
                            }
                        }
                    } else {
                        proof {
                            assert(pre_vs[ns as int]);
                            assert forall|q: u16|
                                (#[trigger] visited@[q as int]) <==> (old_vs[q as int]
                                || gen_pref(old_front, trans, f as int, j + 1, q)) by {
                                if gen_pref(old_front, trans, f as int, j + 1, q) {
                                    let (a, bb) = choose|a: int, bb: int|
                                        0 <= a < old_front.len() && 0 <= bb < trans.len() && (a < f
                                            || (a == f && bb < j + 1)) && q == (
                                        #[trigger] old_front[a]) ^ (#[trigger] trans[bb]);
                                    if a == f && bb == j {
                                        assert(q == ns);
                                        assert(visited@[q as int]);
                                    } else {
                                        assert(gen_pref(old_front, trans, f as int, j as int, q));
                                    }
                                }
                                if old_vs[q as int] || gen_pref(
                                    old_front,
                                    trans,
                                    f as int,
                                    j as int,
                                    q,
                                ) {
                                    if gen_pref(old_front, trans, f as int, j as int, q) {
                                        lemma_gen_mono(
                                            old_front,
                                            trans,
                                            f as int,
                                            j as int,
                                            f as int,
                                            j + 1,
                                            q,
                                        );
                                    }
                                }
                            }
                            assert forall|q: u16|
                                #[trigger] next@.contains(q) <==> (!old_vs[q as int] && gen_pref(
                                    old_front,
                                    trans,
                                    f as int,
                                    j + 1,
                                    q,
                                )) by {
                                if next@.contains(q) {
                                    lemma_gen_mono(
                                        old_front,
                                        trans,
                                        f as int,
                                        j as int,
                                        f as int,
                                        j + 1,
                                        q,
                                    );
                                }
                                if !old_vs[q as int] && gen_pref(
                                    old_front,
                                    trans,
                                    f as int,
                                    j + 1,
                                    q,
                                ) {
                                    let (a, bb) = choose|a: int, bb: int|
                                        0 <= a < old_front.len() && 0 <= bb < trans.len() && (a < f
                                            || (a == f && bb < j + 1)) && q == (
                                        #[trigger] old_front[a]) ^ (#[trigger] trans[bb]);
                                    if a == f && bb == j {
                                        assert(q == ns);
                                        assert(pre_vs[ns as int]);
                                        assert(old_vs[q as int] || gen_pref(
                                            old_front,
                                            trans,
                                            f as int,
                                            j as int,
                                            q,
                                        ));
                                        assert(gen_pref(old_front, trans, f as int, j as int, q));
                                    } else {
                                        assert(gen_pref(old_front, trans, f as int, j as int, q));
                                    }
                                    assert(next@.contains(q));
                                }
                            }
                        }
                    }
                    j += 1;
                }
                proof {
                    assert forall|q: u16|
                        (#[trigger] visited@[q as int]) <==> (old_vs[q as int] || gen_pref(
                            old_front,
                            trans,
                            f + 1,
                            0,
                            q,
                        )) by {
                        if visited@[q as int] && !old_vs[q as int] {
                            lemma_gen_mono(
                                old_front,
                                trans,
                                f as int,
                                tlen as int,
                                f + 1,
                                0,
                                q,
                            );
                        }
                        if gen_pref(old_front, trans, f + 1, 0, q) {
                            let (a, bb) = choose|a: int, bb: int|
                                0 <= a < old_front.len() && 0 <= bb < trans.len() && (a < f + 1
                                    || (a == f + 1 && bb < 0)) && q == (#[trigger] old_front[a])
                                    ^ (#[trigger] trans[bb]);
                            assert(a < f || (a == f && bb < tlen));
                            assert(gen_pref(old_front, trans, f as int, tlen as int, q));
                        }
                    }
                    assert forall|q: u16|
                        #[trigger] next@.contains(q) <==> (!old_vs[q as int] && gen_pref(
                            old_front,
                            trans,
                            f + 1,
                            0,
                            q,
                        )) by {
                        if next@.contains(q) {
                            lemma_gen_mono(
                                old_front,
                                trans,
                                f as int,
                                tlen as int,
                                f + 1,
                                0,
                                q,
                            );
                        }
                        if gen_pref(old_front, trans, f + 1, 0, q) {
                            let (a, bb) = choose|a: int, bb: int|
                                0 <= a < old_front.len() && 0 <= bb < trans.len() && (a < f + 1
                                    || (a == f + 1 && bb < 0)) && q == (#[trigger] old_front[a])
                                    ^ (#[trigger] trans[bb]);
                            assert(a < f || (a == f && bb < tlen));
                            assert(gen_pref(old_front, trans, f as int, tlen as int, q));
                        }
                    }
                }
                f += 1;
            }
            let ghost dd = d as int;
            proof {
                assert forall|q: u16| (#[trigger] visited@[q as int]) <==> exists|m: int|
                    0 <= m <= dd + 1 && #[trigger] reach_in(trans, q, m) by {
                    if visited@[q as int] {
                        if old_vs[q as int] {
                            let m = choose|m: int|
                                0 <= m <= dd && #[trigger] reach_in(trans, q, m);
                            assert(0 <= m <= dd + 1 && reach_in(trans, q, m));
                        } else {
                            let (a, bb) = choose|a: int, bb: int|
                                0 <= a < old_front.len() && 0 <= bb < trans.len() && (a < flen || (
                                a == flen && bb < 0)) && q == (#[trigger] old_front[a]) ^ (
                                #[trigger] trans[bb]);
                            assert(old_front.contains(old_front[a]));
                            assert(reach_in(trans, old_front[a], dd));
                            lemma_reach_step(trans, old_front[a], dd, bb);
                            assert(reach_in(trans, q, dd + 1));
                        }
                    }
                    if exists|m: int| 0 <= m <= dd + 1 && #[trigger] reach_in(trans, q, m) {
                        let m = choose|m: int|
                            0 <= m <= dd + 1 && #[trigger] reach_in(trans, q, m);
                        if m <= dd {
                            assert(old_vs[q as int]);
                            assert(visited@[q as int]);
                        } else {
                            assert(reach_in(trans, q, dd + 1));
                            let j2 = choose|j2: int|
                                0 <= j2 < trans.len() && reach_in(
                                    trans,
                                    q ^ (#[trigger] trans[j2]),
                                    dd,
                                );
                            let pv = q ^ trans[j2];
                            if exists|m2: int| 0 <= m2 < dd && #[trigger] reach_in(trans, pv, m2) {
                                let m2 = choose|m2: int|
                                    0 <= m2 < dd && #[trigger] reach_in(trans, pv, m2);
                                lemma_reach_step(trans, pv, m2, j2);
                                lemma_xor_cancel(q, trans[j2]);
                                assert(reach_in(trans, q, m2 + 1));
                                assert(old_vs[q as int]);
                                assert(visited@[q as int]);
                            } else {
                                assert(old_front.contains(pv));
                                let a = choose|a: int|
                                    0 <= a < old_front.len() && old_front[a] == pv;
                                lemma_xor_cancel(q, trans[j2]);
                                assert(q == old_front[a] ^ trans[j2]);
                                assert(gen_pref(old_front, trans, flen as int, 0, q));
                                assert(visited@[q as int]);
                            }
                        }
                    }
                }
                assert forall|q: u16|
                    #[trigger] next@.contains(q) <==> (reach_in(trans, q, dd + 1) && !(exists|
                        m: int,
                    |
                        0 <= m < dd + 1 && #[trigger] reach_in(trans, q, m))) by {
                    if next@.contains(q) {
                        assert(!old_vs[q as int]);
                        let (a, bb) = choose|a: int, bb: int|
                            0 <= a < old_front.len() && 0 <= bb < trans.len() && (a < flen || (a
                                == flen && bb < 0)) && q == (#[trigger] old_front[a]) ^ (
                            #[trigger] trans[bb]);
                        assert(old_front.contains(old_front[a]));
                        assert(reach_in(trans, old_front[a], dd));
                        lemma_reach_step(trans, old_front[a], dd, bb);
                        if exists|m: int| 0 <= m < dd + 1 && #[trigger] reach_in(trans, q, m) {
                            let m = choose|m: int|
                                0 <= m < dd + 1 && #[trigger] reach_in(trans, q, m);
                            assert(old_vs[q as int]);
                            assert(false);
                        }
                    }
                    if reach_in(trans, q, dd + 1) && !(exists|m: int|
                        0 <= m < dd + 1 && #[trigger] reach_in(trans, q, m)) {
                        assert(!old_vs[q as int]);
                        let j2 = choose|j2: int|
                            0 <= j2 < trans.len() && reach_in(trans, q ^ (#[trigger] trans[j2]), dd);
                        let pv = q ^ trans[j2];
                        if exists|m2: int| 0 <= m2 < dd && #[trigger] reach_in(trans, pv, m2) {
                            let m2 = choose|m2: int|
                                0 <= m2 < dd && #[trigger] reach_in(trans, pv, m2);
                            lemma_reach_step(trans, pv, m2, j2);
                            lemma_xor_cancel(q, trans[j2]);
                            assert(reach_in(trans, q, m2 + 1));
                            assert(false);
                        } else {
                            assert(old_front.contains(pv));
                            let a = choose|a: int| 0 <= a < old_front.len() && old_front[a] == pv;
                            lemma_xor_cancel(q, trans[j2]);
                            assert(q == old_front[a] ^ trans[j2]);
                            assert(gen_pref(old_front, trans, flen as int, 0, q));
                            assert(next@.contains(q));
                        }
                    }
                }
            }
            d += 1;
            frontier = next;
        }
        proof {
            assert forall|q: u16| #[trigger] reach_in(trans, q, d as int) implies exists|m: int|
                0 <= m < d && #[trigger] reach_in(trans, q, m) by {
                if !(exists|m: int| 0 <= m < d && #[trigger] reach_in(trans, q, m)) {
                    assert(frontier@.contains(q));
                }
            }
            assert forall|n: int| n >= 0 implies !reach_in(trans, self.target, n) by {
                if reach_in(trans, self.target, n) {
                    lemma_closed(trans, visited@, d as int, self.target, n);
                    assert(visited@[self.target as int]);
                    let m = choose|m: int|
                        0 <= m <= d && #[trigger] reach_in(trans, self.target, m);
                    if m < d {
                        assert(false);
                    } else {
                        assert(reach_in(trans, self.target, d as int));
                        let m2 = choose|m2: int|
                            0 <= m2 < d && #[trigger] reach_in(trans, self.target, m2);
                        assert(false);
                    }
                }
            }
        }
        None
    }

    /// Reads the joltage targets such as "{3,5,4}".
    pub fn target_joltage_from_str(s: &str) -> (r: Result<Vec<u16>, MachineError>)
        ensures
            r matches Ok(v) && v@ == u16list_spec(s@, '{', '}', 0),
    {
        Ok(parse_u16_list(s, '{', '}'))
    }

    /// Reads a button group such as "(0,1,2)" as the plain list of the
    /// counters it feeds.
    pub fn joltage_transition_from_str(s: &str) -> (r: Result<Vec<u16>, MachineError>)
        ensures
            r matches Ok(v) && v@ == u16list_spec(s@, '(', ')', 0),
    {
        Ok(parse_u16_list(s, '(', ')'))
    }
}

} // verus!
