use vstd::prelude::*;

use crate::elem::{comparable, spec_lt, Elem};

verus! {

/// Method for breaking ties among ranks: a maximal run of equal values
/// receives the lowest, the highest, or the floor-averaged rank of the run.
#[derive(Clone, Copy, Debug, PartialEq, Eq, Structural)]
pub enum RankMethod {
    Minimum,
    Maximum,
    Average,
}

/// Number of entries of `s` strictly below `v` under the element order.
pub open spec fn count_lt(s: Seq<Elem>, v: Elem) -> int
    decreases s.len(),
{
    if s.len() == 0 {
        0
    } else {
        count_lt(s.drop_last(), v) + if spec_lt(s.last(), v) {
            1int
        } else {
            0int
        }
    }
}

/// Number of entries of `s` equal to `v`.
pub open spec fn count_eq(s: Seq<Elem>, v: Elem) -> int
    decreases s.len(),
{
    if s.len() == 0 {
        0
    } else {
        count_eq(s.drop_last(), v) + if s.last() == v {
            1int
        } else {
            0int
        }
    }
}

/// The rank of position `j` of `s` under `method`, or the sentinel 0 when
/// the entry there takes no part in ordering. A comparable entry ranks
/// after every strictly smaller entry; a run of equal entries shares one
/// rank, chosen by the method.
pub open spec fn rank_of(s: Seq<Elem>, method: RankMethod, j: int) -> int {
    if !comparable(s[j]) {
        0
    } else {
        let lt = count_lt(s, s[j]);
        let eq = count_eq(s, s[j]);
        match method {
            RankMethod::Minimum => lt + 1,
            RankMethod::Maximum => lt + eq,
            RankMethod::Average => lt + 1 + (eq - 1) / 2,
        }
    }
}

/// The two counts are non-negative and, being counts of disjoint
/// conditions, sum to at most the length.
pub proof fn lemma_count_bounds(s: Seq<Elem>, v: Elem)
    ensures
        0 <= count_lt(s, v),
        0 <= count_eq(s, v),
        count_lt(s, v) + count_eq(s, v) <= s.len(),
    decreases s.len(),
{
    if s.len() > 0 {
        lemma_count_bounds(s.drop_last(), v);
    }
}

/// An element is counted among the entries equal to itself.
pub proof fn lemma_count_eq_at_least_one(s: Seq<Elem>, j: int)
    requires
        0 <= j < s.len(),
    ensures
        count_eq(s, s[j]) >= 1,
    decreases s.len(),
{
    if j == s.len() - 1 {
        lemma_count_bounds(s.drop_last(), s[j]);
    } else {
        lemma_count_eq_at_least_one(s.drop_last(), j);
        assert(s.drop_last()[j] == s[j]);
    }
}

/// A rank is the sentinel 0 exactly on the entries that take no part in
/// ordering; every comparable entry gets a rank of at least 1.
pub proof fn lemma_rank_sentinel(s: Seq<Elem>, method: RankMethod, j: int)
    requires
        0 <= j < s.len(),
    ensures
        (rank_of(s, method, j) == 0) <==> !comparable(s[j]),
        comparable(s[j]) ==> 1 <= rank_of(s, method, j) <= s.len(),
{
    if comparable(s[j]) {
        lemma_count_bounds(s, s[j]);
        lemma_count_eq_at_least_one(s, j);
    }
}

/// Number of comparable entries of `s`.
pub open spec fn count_comp(s: Seq<Elem>) -> int
    decreases s.len(),
{
    if s.len() == 0 {
        0
    } else {
        count_comp(s.drop_last()) + if comparable(s.last()) {
            1int
        } else {
            0int
        }
    }
}

proof fn lemma_count_comp_nonneg(s: Seq<Elem>)
    ensures
        0 <= count_comp(s),
    decreases s.len(),
{
    if s.len() > 0 {
        lemma_count_comp_nonneg(s.drop_last());
    }
}

/// Entries below or equal to a comparable value are comparable, so
/// their counts stay within the comparable count.
proof fn lemma_counts_within_comparable(s: Seq<Elem>, v: Elem)
    requires
        comparable(v),
    ensures
        count_lt(s, v) + count_eq(s, v) <= count_comp(s),
    decreases s.len(),
{
    if s.len() > 0 {
        lemma_counts_within_comparable(s.drop_last(), v);
    }
}

/// Ranks stay within the number of comparable entries, under every
/// tie-breaking method.
pub proof fn lemma_rank_within_comparable(s: Seq<Elem>, method: RankMethod, j: int)
    requires
        0 <= j < s.len(),
    ensures
        rank_of(s, method, j) <= count_comp(s),
{
    lemma_count_comp_nonneg(s);
    if comparable(s[j]) {
        lemma_counts_within_comparable(s, s[j]);
        lemma_count_eq_at_least_one(s, j);
        lemma_count_bounds(s, s[j]);
        assert((count_eq(s, s[j]) - 1) / 2 <= count_eq(s, s[j]) - 1);
    }
}

/// Everything at or below `a` sits strictly below `b` whenever `a` is
/// strictly below `b`.
proof fn lemma_count_le_lt(s: Seq<Elem>, a: Elem, b: Elem)
    requires
        spec_lt(a, b),
    ensures
        count_lt(s, a) + count_eq(s, a) <= count_lt(s, b),
    decreases s.len(),
{
    if s.len() > 0 {
        lemma_count_le_lt(s.drop_last(), a, b);
    }
}

/// Ranks respect the element order: a strictly smaller element gets a
/// strictly smaller rank, under every tie-breaking method.
pub proof fn lemma_rank_respects_order(s: Seq<Elem>, method: RankMethod, i: int, j: int)
    requires
        0 <= i < s.len(),
        0 <= j < s.len(),
        spec_lt(s[i], s[j]),
    ensures
        rank_of(s, method, i) < rank_of(s, method, j),
{
    lemma_count_le_lt(s, s[i], s[j]);
    lemma_count_eq_at_least_one(s, i);
    lemma_count_eq_at_least_one(s, j);
    lemma_count_bounds(s, s[i]);
    lemma_count_bounds(s, s[j]);
    let ea = count_eq(s, s[i]);
    let eb = count_eq(s, s[j]);
    assert((ea - 1) / 2 <= ea - 1);
    assert(0 <= (eb - 1) / 2);
}

/// Equal elements always receive equal ranks: a rank depends only on
/// the element's value.
pub proof fn lemma_rank_equal_values(s: Seq<Elem>, method: RankMethod, i: int, j: int)
    requires
        0 <= i < s.len(),
        0 <= j < s.len(),
        s[i] == s[j],
    ensures
        rank_of(s, method, i) == rank_of(s, method, j),
{
}

/// Counts entries of `data` strictly below `v`.
fn count_below(data: &Vec<Elem>, v: Elem) -> (r: usize)
    ensures
        r as int == count_lt(data@, v),
        r <= data@.len(),
{
    let mut r: usize = 0;
    let mut k: usize = 0;
    while k < data.len()
        invariant
            k <= data@.len(),
            r as int == count_lt(data@.take(k as int), v),
            r <= k,
        decreases data@.len() - k,
    {
        if data[k].lt(v) {
            r = r + 1;
        }
        k = k + 1;
        proof {
            assert(data@.take(k as int).drop_last() =~= data@.take(k as int - 1));
        }
    }
    proof {
        assert(data@.take(data@.len() as int) =~= data@);
    }
    r
}

/// Counts entries of `data` equal to `v`.
fn count_equal(data: &Vec<Elem>, v: Elem) -> (r: usize)
    ensures
        r as int == count_eq(data@, v),
        r <= data@.len(),
{
    let mut r: usize = 0;
    let mut k: usize = 0;
    while k < data.len()
        invariant
            k <= data@.len(),
            r as int == count_eq(data@.take(k as int), v),
            r <= k,
        decreases data@.len() - k,
    {
        if data[k] == v {
            r = r + 1;
        }
        k = k + 1;
        proof {
            assert(data@.take(k as int).drop_last() =~= data@.take(k as int - 1));
        }
    }
    proof {
        assert(data@.take(data@.len() as int) =~= data@);
    }
    r
}

/// Ranks a flat sequence of elements: every comparable entry gets its
/// 1-based rank under `method`; non-comparable entries get the sentinel 0.
pub fn rank_flat(data: &Vec<Elem>, method: RankMethod) -> (out: Vec<usize>)
    ensures
        out@.len() == data@.len(),
        forall|j: int| 0 <= j < data@.len() ==> out@[j] as int == rank_of(data@, method, j),
{
    let n = data.len();
    let mut out: Vec<usize> = Vec::new();
    let mut j: usize = 0;
    while j < n
        invariant
            n == data@.len(),
            j <= n,
            out@.len() == j,
            forall|p: int| 0 <= p < j ==> out@[p] as int == rank_of(data@, method, p),
        decreases n - j,
    {
        let e = data[j];
        if e.is_comparable() {
            let lt = count_below(data, e);
            let eq = count_equal(data, e);
            proof {
                lemma_count_bounds(data@, e);
                lemma_count_eq_at_least_one(data@, j as int);
            }
            let r: usize = match method {
                RankMethod::Minimum => lt + 1,
                RankMethod::Maximum => lt + eq,
                RankMethod::Average => lt + 1 + (eq - 1) / 2,
            };
            out.push(r);
        } else {
            out.push(0);
        }
        j = j + 1;
    }
    out
}

} // verus!
