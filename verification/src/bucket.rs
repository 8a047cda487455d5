use vstd::prelude::*;
use vstd::arithmetic::div_mod::{
    lemma_div_by_self, lemma_fundamental_div_mod, lemma_mod_bound, lemma_mod_self_0,
};

use crate::elem::Elem;
use crate::rank::{rank_flat, rank_of, lemma_rank_sentinel, RankMethod};

verus! {

/// Greatest rank among the first `n` positions of the rank view of `s`
/// (0 when none is positive).
pub open spec fn max_rank_upto(s: Seq<Elem>, method: RankMethod, n: int) -> int
    decreases n,
{
    if n <= 0 {
        0
    } else {
        let m = max_rank_upto(s, method, n - 1);
        let r = rank_of(s, method, n - 1);
        if r > m {
            r
        } else {
            m
        }
    }
}

/// Greatest rank assigned anywhere in `s`; 0 when `s` has no comparable
/// entry.
pub open spec fn max_rank(s: Seq<Elem>, method: RankMethod) -> int {
    max_rank_upto(s, method, s.len() as int)
}

/// Number of buckets actually cut: the requested count `b`, or the
/// greatest rank `m` when there are fewer ranks than requested buckets.
pub open spec fn eff_buckets(m: int, b: int) -> int {
    if m / b == 0 {
        m
    } else {
        b
    }
}

/// Ranks that every bucket receives at least.
pub open spec fn ranks_per_bucket(m: int, b: int) -> int {
    if m / b == 0 {
        1
    } else {
        m / b
    }
}

/// Leftover ranks after the even split; the first buckets take one each.
pub open spec fn bucket_rem(m: int, b: int) -> int {
    m % eff_buckets(m, b)
}

/// Lowest rank of the 0-based bucket `i`: every earlier bucket holds
/// `rpb` ranks, and each of the first `rem` buckets one more.
pub open spec fn cut_point(i: int, rpb: int, rem: int) -> int {
    1 + i * rpb + if i <= rem {
        i
    } else {
        rem
    }
}

/// How many of the first `n` cut points lie at or below `x`.
pub open spec fn cuts_le(x: int, n: int, rpb: int, rem: int) -> int
    decreases n,
{
    if n <= 0 {
        0
    } else {
        cuts_le(x, n - 1, rpb, rem) + if cut_point(n - 1, rpb, rem) <= x {
            1int
        } else {
            0int
        }
    }
}

/// The bucket of rank `x` when ranks `1..=m` are split into `b` requested
/// buckets: the number of cut points at or below `x`.
pub open spec fn bucket_of(x: int, m: int, b: int) -> int {
    cuts_le(x, eff_buckets(m, b), ranks_per_bucket(m, b), bucket_rem(m, b))
}

/// The bucket view of position `j` of `s`: the sentinel rank 0 stays 0,
/// every other rank is replaced by its bucket.
pub open spec fn discretize_of(s: Seq<Elem>, method: RankMethod, b: int, j: int) -> int {
    let r = rank_of(s, method, j);
    if r == 0 {
        0
    } else {
        bucket_of(r, max_rank(s, method), b)
    }
}

/// Every rank of `s` lies at or below the greatest, and the greatest is
/// non-negative.
pub proof fn lemma_max_rank_upto(s: Seq<Elem>, method: RankMethod, n: int)
    ensures
        0 <= max_rank_upto(s, method, n),
        forall|j: int| 0 <= j < n ==> rank_of(s, method, j) <= max_rank_upto(s, method, n),
    decreases n,
{
    if n > 0 {
        lemma_max_rank_upto(s, method, n - 1);
    }
}

/// With at least one rank and one requested bucket, the cut widths tile
/// `[1, m]` exactly: `eff * rpb + rem == m`, with `1 <= eff <= m`,
/// `rpb >= 1` and `0 <= rem < eff`.
pub proof fn lemma_bucket_params(m: int, b: int)
    requires
        m >= 1,
        b >= 1,
    ensures
        1 <= eff_buckets(m, b) <= m,
        ranks_per_bucket(m, b) >= 1,
        0 <= bucket_rem(m, b) < eff_buckets(m, b),
        eff_buckets(m, b) * ranks_per_bucket(m, b) + bucket_rem(m, b) == m,
{
    if m / b == 0 {
        lemma_div_by_self(m);
        lemma_mod_self_0(m);
    } else {
        lemma_fundamental_div_mod(m, b);
        lemma_mod_bound(m, b);
        assert(b * (m / b) == eff_buckets(m, b) * ranks_per_bucket(m, b)) by (nonlinear_arith)
            requires m / b != 0, eff_buckets(m, b) == b, ranks_per_bucket(m, b) == m / b;
        assert(b <= b * (m / b)) by (nonlinear_arith)
            requires b >= 1, m / b >= 1;
    }
}

/// Cut points strictly ascend: a later bucket begins at a strictly
/// higher rank.
proof fn lemma_cut_increasing(i: int, j: int, rpb: int, rem: int)
    requires
        0 <= i < j,
        rpb >= 1,
        rem >= 0,
    ensures
        cut_point(i, rpb, rem) < cut_point(j, rpb, rem),
{
    assert(i * rpb + (j - i) <= j * rpb) by (nonlinear_arith)
        requires i < j, rpb >= 1;
}

/// Among the first `n` cut points, those at or below cut point `k` are
/// exactly the first `k + 1`.
proof fn lemma_cuts_le_cut(k: int, n: int, rpb: int, rem: int)
    requires
        0 <= k,
        0 <= n,
        rpb >= 1,
        rem >= 0,
    ensures
        cuts_le(cut_point(k, rpb, rem), n, rpb, rem) == if n <= k + 1 {
            n
        } else {
            k + 1
        },
    decreases n,
{
    if n > 0 {
        lemma_cuts_le_cut(k, n - 1, rpb, rem);
        if n - 1 < k {
            lemma_cut_increasing(n - 1, k, rpb, rem);
        } else if n - 1 > k {
            lemma_cut_increasing(k, n - 1, rpb, rem);
        }
    }
}

/// The count of cut points at or below a threshold never falls as the
/// threshold grows.
proof fn lemma_cuts_le_monotone(x: int, y: int, n: int, rpb: int, rem: int)
    requires
        x <= y,
        0 <= n,
    ensures
        cuts_le(x, n, rpb, rem) <= cuts_le(y, n, rpb, rem),
    decreases n,
{
    if n > 0 {
        lemma_cuts_le_monotone(x, y, n - 1, rpb, rem);
    }
}

/// The count of cut points at or below a threshold lies between 0 and `n`.
proof fn lemma_cuts_le_bounds(x: int, n: int, rpb: int, rem: int)
    requires
        0 <= n,
    ensures
        0 <= cuts_le(x, n, rpb, rem) <= n,
    decreases n,
{
    if n > 0 {
        lemma_cuts_le_bounds(x, n - 1, rpb, rem);
    }
}

/// Every cut point lies within the rank range; the last one leaves room
/// for a full bucket of `rpb` ranks.
proof fn lemma_cut_in_range(i: int, m: int, b: int)
    requires
        m >= 1,
        b >= 1,
        0 <= i < eff_buckets(m, b),
    ensures
        1 <= cut_point(i, ranks_per_bucket(m, b), bucket_rem(m, b)) <= m - ranks_per_bucket(m, b) + 1,
{
    lemma_bucket_params(m, b);
    let eff = eff_buckets(m, b);
    let rpb = ranks_per_bucket(m, b);
    let rem = bucket_rem(m, b);
    if i < eff - 1 {
        lemma_cut_increasing(i, eff - 1, rpb, rem);
    }
    assert((eff - 1) * rpb == eff * rpb - rpb) by (nonlinear_arith);
    assert(cut_point(eff - 1, rpb, rem) == 1 + (eff * rpb + rem) - rpb);
    if i >= 1 {
        lemma_cut_increasing(0, i, rpb, rem);
    }
}

/// Discretization is monotone over ranks: of two ranks in range, the
/// smaller never lands in a higher bucket.
pub proof fn lemma_bucket_monotone(x: int, y: int, m: int, b: int)
    requires
        m >= 1,
        b >= 1,
        x <= y,
    ensures
        bucket_of(x, m, b) <= bucket_of(y, m, b),
{
    lemma_bucket_params(m, b);
    lemma_cuts_le_monotone(x, y, eff_buckets(m, b), ranks_per_bucket(m, b), bucket_rem(m, b));
}

/// Every rank in `[1, m]` lands in a real bucket: one of `1..=eff`.
pub proof fn lemma_bucket_in_range(x: int, m: int, b: int)
    requires
        m >= 1,
        b >= 1,
        1 <= x <= m,
    ensures
        1 <= bucket_of(x, m, b) <= eff_buckets(m, b),
{
    lemma_bucket_params(m, b);
    let eff = eff_buckets(m, b);
    let rpb = ranks_per_bucket(m, b);
    let rem = bucket_rem(m, b);
    lemma_cuts_le_bounds(x, eff, rpb, rem);
    lemma_cuts_le_cut(0, eff, rpb, rem);
    lemma_cuts_le_monotone(cut_point(0, rpb, rem), x, eff, rpb, rem);
}

/// No bucket is cut empty: every bucket id up to the effective count is
/// attained by some rank in `[1, m]`.
pub proof fn lemma_bucket_attained(k: int, m: int, b: int)
    requires
        m >= 1,
        b >= 1,
        1 <= k <= eff_buckets(m, b),
    ensures
        exists|x: int| 1 <= x <= m && bucket_of(x, m, b) == k,
{
    lemma_bucket_params(m, b);
    let eff = eff_buckets(m, b);
    let rpb = ranks_per_bucket(m, b);
    let rem = bucket_rem(m, b);
    let x = cut_point(k - 1, rpb, rem);
    lemma_cut_in_range(k - 1, m, b);
    lemma_cuts_le_cut(k - 1, eff, rpb, rem);
    assert(1 <= x <= m && bucket_of(x, m, b) == k);
}

/// Buckets a flat sequence: ranks under `method`, then each non-sentinel
/// rank replaced by its bucket among `buckets` requested buckets. With no
/// comparable entry at all the output is all sentinel.
#[verifier::loop_isolation(false)]
pub fn discretize_flat(data: &Vec<Elem>, method: RankMethod, buckets: usize) -> (out: Vec<usize>)
    requires
        buckets >= 1,
    ensures
        out@.len() == data@.len(),
        forall|j: int|
            0 <= j < data@.len() ==> out@[j] as int == discretize_of(
                data@,
                method,
                buckets as int,
                j,
            ),
{
    let ranks = rank_flat(data, method);
    let n = ranks.len();
    let mut m: usize = 0;
    let mut k: usize = 0;
    while k < n
        invariant
            k <= n,
            m as int == max_rank_upto(data@, method, k as int),
        decreases n - k,
    {
        if ranks[k] > m {
            m = ranks[k];
        }
        k = k + 1;
    }
    proof {
        lemma_max_rank_upto(data@, method, n as int);
    }
    if m == 0 {
        proof {
            assert forall|j: int| 0 <= j < data@.len() implies ranks@[j] as int == discretize_of(
                data@,
                method,
                buckets as int,
                j,
            ) by {
                lemma_rank_sentinel(data@, method, j);
            }
        }
        return ranks;
    }
    let rpb0 = m / buckets;
    let eff: usize;
    let rpb: usize;
    if rpb0 == 0 {
        eff = m;
        rpb = 1;
    } else {
        eff = buckets;
        rpb = rpb0;
    }
    let rem = m % eff;
    proof {
        lemma_bucket_params(m as int, buckets as int);
    }
    let mut cuts: Vec<usize> = Vec::new();
    let mut i: usize = 0;
    let mut low: usize = 1;
    while i < eff
        invariant
            i <= eff,
            cuts@.len() == i,
            forall|t: int|
                0 <= t < i ==> cuts@[t] as int == cut_point(t, rpb as int, rem as int),
            i < eff ==> low as int == cut_point(i as int, rpb as int, rem as int),
        decreases eff - i,
    {
        proof {
            lemma_cut_in_range(i as int, m as int, buckets as int);
        }
        cuts.push(low);
        if i + 1 < eff {
            proof {
                lemma_cut_in_range(i as int + 1, m as int, buckets as int);
                assert((i as int + 1) * rpb as int == i as int * rpb as int + rpb as int)
                    by (nonlinear_arith);
            }
            if i < rem {
                low = low + rpb + 1;
            } else {
                low = low + rpb;
            }
        }
        i = i + 1;
    }
    let mut out: Vec<usize> = Vec::new();
    let mut j: usize = 0;
    while j < n
        invariant
            j <= n,
            out@.len() == j,
            forall|p: int|
                0 <= p < j ==> out@[p] as int == discretize_of(data@, method, buckets as int, p),
        decreases n - j,
    {
        let x = ranks[j];
        if x == 0 {
            proof {
                lemma_rank_sentinel(data@, method, j as int);
            }
            out.push(0);
        } else {
            let mut cnt: usize = 0;
            let mut t: usize = 0;
            while t < eff
                invariant
                    t <= eff,
                    cnt as int == cuts_le(x as int, t as int, rpb as int, rem as int),
                    cnt <= t,
                decreases eff - t,
            {
                if cuts[t] <= x {
                    cnt = cnt + 1;
                }
                t = t + 1;
            }
            out.push(cnt);
        }
        j = j + 1;
    }
    out
}

} // verus!
