use vstd::prelude::*;

verus! {

pub open spec fn is_digit_char(c: char) -> bool {
    ('0' as u32) <= (c as u32) <= ('9' as u32)
}

pub open spec fn digit_val(c: char) -> int {
    c as u32 - '0' as u32
}

pub open spec fn all_digits(s: Seq<char>) -> bool {
    forall|i: int| 0 <= i < s.len() ==> is_digit_char(#[trigger] s[i])
}

/// Value of a run of decimal digit characters, most significant first.
pub open spec fn digits_value(s: Seq<char>) -> int
    decreases s.len(),
{
    if s.len() == 0 {
        0
    } else {
        digits_value(s.drop_last()) * 10 + digit_val(s.last())
    }
}

pub proof fn lemma_digits_value_nonneg(s: Seq<char>)
    requires
        all_digits(s),
    ensures
        digits_value(s) >= 0,
    decreases s.len(),
{
    if s.len() > 0 {
        let sl = s.drop_last();
        assert forall|i: int| 0 <= i < sl.len() implies is_digit_char(#[trigger] sl[i]) by {
            assert(sl[i] == s[i]);
        }
        lemma_digits_value_nonneg(sl);
        assert(s.last() == s[s.len() - 1]);
    }
}

/// Extending a digit run never decreases its value.
pub proof fn lemma_digits_prefix_le(s: Seq<char>, k: int)
    requires
        all_digits(s),
        0 <= k <= s.len(),
    ensures
        digits_value(s.take(k)) <= digits_value(s),
    decreases s.len(),
{
    if k == s.len() {
        assert(s.take(k) =~= s);
    } else {
        let sl = s.drop_last();
        assert forall|i: int| 0 <= i < sl.len() implies is_digit_char(#[trigger] sl[i]) by {
            assert(sl[i] == s[i]);
        }
        assert(s.take(k) =~= sl.take(k));
        lemma_digits_prefix_le(sl, k);
        lemma_digits_value_nonneg(sl);
        assert(s.last() == s[s.len() - 1]);
        assert(digits_value(s) == digits_value(sl) * 10 + digit_val(s.last()));
    }
}

/// Parses the character range [from, to) of `s` as an unsigned decimal
/// number.  Fails on an empty range, on any non-digit character, and on
/// a value that does not fit a usize.
pub fn parse_usize_str(s: &str, from: usize, to: usize) -> (r: Option<usize>)
    requires
        from <= to <= s@.len(),
    ensures
        r is Some <==> (from < to && all_digits(s@.subrange(from as int, to as int))
            && digits_value(s@.subrange(from as int, to as int)) <= usize::MAX),
        r matches Some(v) ==> v == digits_value(s@.subrange(from as int, to as int)),
{
    if from == to {
        return None;
    }
    let ghost whole = s@.subrange(from as int, to as int);
    let mut acc: usize = 0;
    let mut i = from;
    while i < to
        invariant
            from <= i <= to <= s@.len(),
            whole == s@.subrange(from as int, to as int),
            all_digits(s@.subrange(from as int, i as int)),
            acc == digits_value(s@.subrange(from as int, i as int)),
        decreases to - i,
    {
        let c = s.get_char(i);
        let cv = c as u32;
        let ghost pre = s@.subrange(from as int, i as int);
        let ghost ext = s@.subrange(from as int, i as int + 1);
        proof {
            assert(ext.drop_last() =~= pre);
            assert(ext.last() == s@[i as int]);
        }
        if cv < 48 || cv > 57 {
            proof {
                assert(!is_digit_char(whole[i - from]));
            }
            return None;
        }
        let d = (cv - 48) as usize;
        assert(d as int == digit_val(s@[i as int]));
        if acc > (usize::MAX - d) / 10 {
            proof {
                assert(acc * 10 > usize::MAX - d) by {
                    let b = usize::MAX - d;
                    assert(10 * (b / 10) <= b < 10 * (b / 10) + 10);
                }
                assert forall|k: int| 0 <= k < ext.len() implies is_digit_char(
                    #[trigger] ext[k],
                ) by {
                    if k < ext.len() - 1 {
                        assert(ext[k] == pre[k]);
                    }
                }
                assert(digits_value(ext) > usize::MAX);
                assert(ext =~= whole.take(i - from + 1));
                assert forall|k: int| 0 <= k < whole.len() implies is_digit_char(
                    #[trigger] whole[k],
                ) || !all_digits(whole) by {}
                if all_digits(whole) {
                    lemma_digits_prefix_le(whole, i - from + 1);
                }
            }
            return None;
        }
        proof {
            assert(acc * 10 <= usize::MAX - d) by {
                let b = usize::MAX - d;
                assert(10 * (b / 10) <= b);
            }
        }
        acc = acc * 10 + d;
        i += 1;
        proof {
            assert(s@.subrange(from as int, i as int) == ext);
            assert forall|k: int| 0 <= k < ext.len() implies is_digit_char(#[trigger] ext[k]) by {
                if k < ext.len() - 1 {
                    assert(ext[k] == pre[k]);
                }
            }
        }
    }
    proof {
        assert(s@.subrange(from as int, i as int) == whole);
    }
    Some(acc)
}

/// The decimal digits of n, most significant first, as digit values.
pub open spec fn digits_of(n: int) -> Seq<int>
    decreases n,
{
    if n < 10 {
        seq![if n >= 0 {
            n
        } else {
            0
        }]
    } else {
        digits_of(n / 10).push(n % 10)
    }
}

pub proof fn lemma_digits_of_len(n: int)
    requires
        n >= 0,
    ensures
        digits_of(n).len() >= 1,
        forall|i: int| 0 <= i < digits_of(n).len() ==> 0 <= #[trigger] digits_of(n)[i] <= 9,
    decreases n,
{
    if n >= 10 {
        lemma_digits_of_len(n / 10);
        assert forall|i: int| 0 <= i < digits_of(n).len() implies 0 <= #[trigger] digits_of(
            n,
        )[i] <= 9 by {
            if i < digits_of(n).len() - 1 {
                assert(digits_of(n)[i] == digits_of(n / 10)[i]);
            }
        }
    }
}

/// The decimal digit values of n, most significant first.
pub fn digits_vec(n: usize) -> (r: Vec<usize>)
    ensures
        r@.map_values(|v: usize| v as int) == digits_of(n as int),
        r@.len() >= 1,
{
    let mut rev: Vec<usize> = Vec::new();
    let mut m = n;
    while m >= 10
        invariant
            m <= n,
            digits_of(n as int) == digits_of(m as int) + rev@.map_values(
                |v: usize| v as int,
            ).reverse(),
        decreases m,
    {
        let ghost old_rev = rev@;
        rev.push(m % 10);
        proof {
            assert(rev@.map_values(|v: usize| v as int) =~= old_rev.map_values(
                |v: usize| v as int,
            ).push((m % 10) as int));
            assert(rev@.map_values(|v: usize| v as int).reverse() =~= seq![(m % 10) as int]
                + old_rev.map_values(|v: usize| v as int).reverse());
            assert(digits_of(m as int) =~= digits_of(m as int / 10).push(m as int % 10));
            assert(digits_of(m as int / 10) + (seq![(m % 10) as int] + old_rev.map_values(
                |v: usize| v as int,
            ).reverse()) =~= digits_of(m as int) + old_rev.map_values(
                |v: usize| v as int,
            ).reverse());
        }
        m = m / 10;
    }
    let mut out: Vec<usize> = Vec::new();
    out.push(m);
    let mut k = rev.len();
    proof {
        assert(out@.map_values(|v: usize| v as int) =~= digits_of(m as int));
        assert(digits_of(n as int) =~= digits_of(m as int) + rev@.map_values(
            |v: usize| v as int,
        ).reverse().subrange(0, rev@.len() as int));
    }
    while k > 0
        invariant
            k <= rev@.len(),
            m < 10,
            out@.map_values(|v: usize| v as int) == digits_of(m as int) + rev@.map_values(
                |v: usize| v as int,
            ).reverse().subrange(0, rev@.len() - k),
            digits_of(n as int) == digits_of(m as int) + rev@.map_values(
                |v: usize| v as int,
            ).reverse(),
        decreases k,
    {
        let ghost old_out = out@;
        out.push(rev[k - 1]);
        proof {
            let mapped = rev@.map_values(|v: usize| v as int);
            assert(out@.map_values(|v: usize| v as int) =~= old_out.map_values(
                |v: usize| v as int,
            ).push(rev@[k - 1] as int));
            assert(mapped.reverse().subrange(0, rev@.len() - k + 1) =~= mapped.reverse().subrange(
                0,
                rev@.len() - k,
            ).push(mapped.reverse()[rev@.len() - k]));
            assert(mapped.reverse()[rev@.len() - k] == mapped[k - 1]);
            assert(out@.map_values(|v: usize| v as int) =~= digits_of(m as int)
                + mapped.reverse().subrange(0, rev@.len() - (k - 1)));
        }
        k -= 1;
    }
    proof {
        let mapped = rev@.map_values(|v: usize| v as int);
        assert(mapped.reverse().subrange(0, rev@.len() as int) =~= mapped.reverse());
        assert(out@.map_values(|v: usize| v as int) =~= digits_of(n as int));
    }
    out
}

/// Index of the first occurrence of `c` in `s` at or after `from`;
/// `s.len()` when there is none.
pub open spec fn find_char(s: Seq<char>, c: char, from: int) -> int
    decreases s.len() - from,
{
    if from < 0 || from >= s.len() {
        s.len() as int
    } else if s[from] == c {
        from
    } else {
        find_char(s, c, from + 1)
    }
}

pub proof fn lemma_find_char_props(s: Seq<char>, c: char, from: int)
    requires
        0 <= from <= s.len(),
    ensures
        from <= find_char(s, c, from) <= s.len(),
        find_char(s, c, from) < s.len() ==> s[find_char(s, c, from)] == c,
        forall|k: int| from <= k < find_char(s, c, from) ==> s[k] != c,
    decreases s.len() - from,
{
    if from < s.len() && s[from] != c {
        lemma_find_char_props(s, c, from + 1);
    }
}

pub fn find_char_str(s: &str, c: char, from: usize) -> (r: usize)
    requires
        from <= s@.len(),
    ensures
        r == find_char(s@, c, from as int),
{
    let n = s.unicode_len();
    let mut i = from;
    while i < n
        invariant
            from <= i <= n == s@.len(),
            find_char(s@, c, from as int) == find_char(s@, c, i as int),
        decreases n - i,
    {
        if s.get_char(i) == c {
            return i;
        }
        i += 1;
    }
    i
}

} // verus!
