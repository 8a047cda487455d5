use vstd::prelude::*;
use vstd::arithmetic::div_mod::{
    lemma_fundamental_div_mod, lemma_fundamental_div_mod_converse, lemma_mod_bound,
};

verus! {

/// Product of the extents of a shape.
pub open spec fn prod(s: Seq<usize>) -> int
    decreases s.len(),
{
    if s.len() == 0 {
        1
    } else {
        prod(s.drop_last()) * s.last() as int
    }
}

/// Product of the extents with every zero read as one. It bounds every
/// partial product that index arithmetic meets, even when some axis is
/// empty and the true product collapses to zero.
pub open spec fn prod_pos(s: Seq<usize>) -> int
    decreases s.len(),
{
    if s.len() == 0 {
        1
    } else {
        prod_pos(s.drop_last()) * (if s.last() == 0 {
            1int
        } else {
            s.last() as int
        })
    }
}

/// The plain product never exceeds the padded one, and the padded one is
/// at least one.
pub proof fn lemma_prod_bounds(s: Seq<usize>)
    ensures
        0 <= prod(s) <= prod_pos(s),
        1 <= prod_pos(s),
    decreases s.len(),
{
    if s.len() > 0 {
        lemma_prod_bounds(s.drop_last());
        let p = prod(s.drop_last());
        let pp = prod_pos(s.drop_last());
        let l = s.last() as int;
        let lm: int = if s.last() == 0 {
            1int
        } else {
            s.last() as int
        };
        assert(p * l <= pp * lm && 0 <= p * l && 1 <= pp * lm) by (nonlinear_arith)
            requires
                0 <= p <= pp,
                1 <= pp,
                0 <= l <= lm,
                1 <= lm,
        ;
    }
}

/// Any contiguous span's products stay within the padded product of the
/// whole shape.
pub proof fn lemma_prod_subrange(s: Seq<usize>, lo: int, hi: int)
    requires
        0 <= lo <= hi <= s.len(),
    ensures
        0 <= prod(s.subrange(lo, hi)) <= prod_pos(s.subrange(lo, hi)),
        1 <= prod_pos(s.subrange(lo, hi)) <= prod_pos(s),
    decreases s.len(),
{
    lemma_prod_bounds(s.subrange(lo, hi));
    lemma_prod_bounds(s);
    if hi < s.len() {
        assert(s.drop_last().subrange(lo, hi) =~= s.subrange(lo, hi));
        lemma_prod_subrange(s.drop_last(), lo, hi);
        let pp = prod_pos(s.drop_last());
        let lm: int = if s.last() == 0 {
            1int
        } else {
            s.last() as int
        };
        assert(pp <= pp * lm) by (nonlinear_arith)
            requires
                1 <= pp,
                1 <= lm,
        ;
    } else if lo < hi {
        assert(s.subrange(lo, hi).drop_last() =~= s.drop_last().subrange(lo, hi - 1));
        lemma_prod_subrange(s.drop_last(), lo, hi - 1);
        lemma_prod_bounds(s.drop_last().subrange(lo, hi - 1));
        let a = prod_pos(s.drop_last().subrange(lo, hi - 1));
        let b = prod_pos(s.drop_last());
        let lm: int = if s.last() == 0 {
            1int
        } else {
            s.last() as int
        };
        assert(s.subrange(lo, hi).last() == s.last());
        assert(a * lm <= b * lm) by (nonlinear_arith)
            requires
                0 <= a <= b,
                0 <= lm,
        ;
    }
}

/// A shape's products split at any axis into the part before, the axis
/// itself, and the part after.
pub proof fn lemma_prod_split(s: Seq<usize>, k: int)
    requires
        0 <= k < s.len(),
    ensures
        prod(s) == (prod(s.take(k)) * s[k] as int) * prod(s.skip(k + 1)),
        prod_pos(s) == (prod_pos(s.take(k)) * (if s[k] == 0 {
            1int
        } else {
            s[k] as int
        })) * prod_pos(s.skip(k + 1)),
    decreases s.len(),
{
    if k == s.len() - 1 {
        assert(s.take(k) =~= s.drop_last());
        assert(s.skip(k + 1) =~= Seq::<usize>::empty());
    } else {
        lemma_prod_split(s.drop_last(), k);
        assert(s.drop_last().take(k) =~= s.take(k));
        assert(s.drop_last().skip(k + 1) =~= s.skip(k + 1).drop_last());
        assert(s.skip(k + 1).last() == s.last());
        let a = prod(s.take(k));
        let e = s[k] as int;
        let p = prod(s.skip(k + 1).drop_last());
        let l = s.last() as int;
        assert(((a * e) * p) * l == (a * e) * (p * l)) by (nonlinear_arith);
        let a2 = prod_pos(s.take(k));
        let e2: int = if s[k] == 0 {
            1int
        } else {
            s[k] as int
        };
        let p2 = prod_pos(s.skip(k + 1).drop_last());
        let l2: int = if s.last() == 0 {
            1int
        } else {
            s.last() as int
        };
        assert(((a2 * e2) * p2) * l2 == (a2 * e2) * (p2 * l2)) by (nonlinear_arith);
    }
}

/// An n-dimensional dense array: a shape, and the elements in row-major
/// order. Well-formed when the element count equals the product of the
/// extents and the padded product fits the machine word.
pub struct Grid<T> {
    pub shape: Vec<usize>,
    pub data: Vec<T>,
}

impl<T> Grid<T> {
    /// The element count matches the shape, and every partial product of
    /// extents that indexing needs fits in `usize`.
    pub open spec fn wf(self) -> bool {
        &&& self.data@.len() == prod(self.shape@)
        &&& prod_pos(self.shape@) <= usize::MAX as int
    }

    /// Builds a grid from a shape and row-major data. `None` when the
    /// element count does not match the shape, or the shape's padded
    /// product does not fit the machine word.
    pub fn from_shape_vec(shape: Vec<usize>, data: Vec<T>) -> (r: Option<Grid<T>>)
        ensures
            match r {
                Some(g) => g.wf() && g.shape@ == shape@ && g.data@ == data@,
                None => prod(shape@) != data@.len() as int || prod_pos(shape@) > usize::MAX
                    as int,
            },
    {
        let n = shape.len();
        let mut p: usize = 1;
        let mut pp: usize = 1;
        let mut i: usize = 0;
        while i < n
            invariant
                i <= n,
                n == shape@.len(),
                p as int == prod(shape@.subrange(0, i as int)),
                pp as int == prod_pos(shape@.subrange(0, i as int)),
            decreases n - i,
        {
            let e = shape[i];
            let em: usize = if e == 0 {
                1
            } else {
                e
            };
            if pp > usize::MAX / em {
                proof {
                    lemma_fundamental_div_mod(usize::MAX as int, em as int);
                    assert(pp as int * em as int > usize::MAX as int) by (nonlinear_arith)
                        requires
                            em >= 1,
                            pp as int > usize::MAX as int / em as int,
                            usize::MAX as int == em as int * (usize::MAX as int / em as int) + (
                            usize::MAX as int % em as int),
                            (usize::MAX as int % em as int) < em as int,
                    ;
                    assert(shape@.subrange(0, i as int + 1).drop_last() =~= shape@.subrange(
                        0,
                        i as int,
                    ));
                    lemma_prod_subrange(shape@, 0, i as int + 1);
                    assert(shape@.subrange(0, i as int + 1).last() == shape@[i as int]);
                }
                return None;
            }
            proof {
                lemma_fundamental_div_mod(usize::MAX as int, em as int);
                assert(pp as int * em as int <= usize::MAX as int) by (nonlinear_arith)
                    requires
                        em >= 1,
                        pp as int <= usize::MAX as int / em as int,
                        usize::MAX as int == em as int * (usize::MAX as int / em as int)
                            + usize::MAX as int % em as int,
                        0 <= usize::MAX as int % em as int,
                ;
                lemma_prod_bounds(shape@.subrange(0, i as int));
                assert(p as int * e as int <= pp as int * em as int) by (nonlinear_arith)
                    requires
                        0 <= p as int <= pp as int,
                        0 <= e as int <= em as int,
                ;
                assert(shape@.subrange(0, i as int + 1).drop_last() =~= shape@.subrange(
                    0,
                    i as int,
                ));
                assert(shape@.subrange(0, i as int + 1).last() == shape@[i as int]);
            }
            pp = pp * em;
            p = p * e;
            i = i + 1;
        }
        proof {
            assert(shape@.subrange(0, n as int) =~= shape@);
        }
        if p != data.len() {
            return None;
        }
        Some(Grid { shape, data })
    }
}

/// The slice of `data` (laid out by `shape`) at position `i` along
/// `axis`: the row-major sequence of the elements of the remaining axes.
pub open spec fn slice_seq<T>(data: Seq<T>, shape: Seq<usize>, axis: int, i: int) -> Seq<T> {
    let nk = shape[axis] as int;
    let inner = prod(shape.skip(axis + 1));
    Seq::new(
        (prod(shape.take(axis)) * inner) as nat,
        |j: int| data[((j / inner) * nk + i) * inner + (j % inner)],
    )
}

/// Product of the extents before `axis`.
#[verifier::loop_isolation(false)]
pub(crate) fn prod_before(shape: &Vec<usize>, axis: usize) -> (r: usize)
    requires
        prod_pos(shape@) <= usize::MAX as int,
        axis <= shape@.len(),
    ensures
        r as int == prod(shape@.take(axis as int)),
{
    let mut p: usize = 1;
    let mut i: usize = 0;
    while i < axis
        invariant
            i <= axis,
            p as int == prod(shape@.subrange(0, i as int)),
        decreases axis - i,
    {
        proof {
            lemma_prod_subrange(shape@, 0, i as int + 1);
            lemma_prod_bounds(shape@.subrange(0, i as int + 1));
            assert(shape@.subrange(0, i as int + 1).drop_last() =~= shape@.subrange(0, i as int));
            assert(shape@.subrange(0, i as int + 1).last() == shape@[i as int]);
        }
        p = p * shape[i];
        i = i + 1;
    }
    proof {
        assert(shape@.subrange(0, axis as int) =~= shape@.take(axis as int));
    }
    p
}

/// Product of the extents after `axis`.
#[verifier::loop_isolation(false)]
pub(crate) fn prod_after(shape: &Vec<usize>, axis: usize) -> (r: usize)
    requires
        prod_pos(shape@) <= usize::MAX as int,
        axis < shape@.len(),
    ensures
        r as int == prod(shape@.skip(axis as int + 1)),
{
    let n = shape.len();
    let mut p: usize = 1;
    let mut i: usize = axis + 1;
    while i < n
        invariant
            axis + 1 <= i <= n,
            p as int == prod(shape@.subrange(axis as int + 1, i as int)),
        decreases n - i,
    {
        proof {
            lemma_prod_subrange(shape@, axis as int + 1, i as int + 1);
            lemma_prod_bounds(shape@.subrange(axis as int + 1, i as int + 1));
            assert(shape@.subrange(axis as int + 1, i as int + 1).drop_last() =~= shape@.subrange(
                axis as int + 1,
                i as int,
            ));
            assert(shape@.subrange(axis as int + 1, i as int + 1).last() == shape@[i as int]);
        }
        p = p * shape[i];
        i = i + 1;
    }
    proof {
        assert(shape@.subrange(axis as int + 1, n as int) =~= shape@.skip(axis as int + 1));
    }
    p
}

/// The split of a well-formed shape at an axis: the outer and inner
/// products and all the index bounds that slicing needs.
pub proof fn lemma_axis_bounds(shape: Seq<usize>, axis: int)
    requires
        prod_pos(shape) <= usize::MAX as int,
        0 <= axis < shape.len(),
    ensures
        prod(shape) == (prod(shape.take(axis)) * shape[axis] as int) * prod(shape.skip(axis + 1)),
        0 <= prod(shape.take(axis)),
        0 <= prod(shape.skip(axis + 1)),
        prod(shape.take(axis)) * prod(shape.skip(axis + 1)) <= usize::MAX as int,
        prod(shape.take(axis)) * shape[axis] as int <= usize::MAX as int,
        (prod(shape.take(axis)) * shape[axis] as int) * prod(shape.skip(axis + 1))
            <= usize::MAX as int,
{
    lemma_prod_split(shape, axis);
    assert(shape.take(axis) =~= shape.subrange(0, axis));
    assert(shape.skip(axis + 1) =~= shape.subrange(axis + 1, shape.len() as int));
    lemma_prod_subrange(shape, 0, axis);
    lemma_prod_subrange(shape, axis + 1, shape.len() as int);
    let a = prod(shape.take(axis));
    let pa = prod_pos(shape.take(axis));
    let e = shape[axis] as int;
    let em: int = if shape[axis] == 0 {
        1int
    } else {
        shape[axis] as int
    };
    let b = prod(shape.skip(axis + 1));
    let pb = prod_pos(shape.skip(axis + 1));
    assert(a * b <= (pa * em) * pb && a * e <= (pa * em) * pb && (a * e) * b <= (pa * em) * pb)
        by (nonlinear_arith)
        requires
            0 <= a <= pa,
            0 <= b <= pb,
            0 <= e <= em,
            1 <= pa,
            1 <= pb,
            1 <= em,
    ;
}

/// Decoding a row-major position recovers the coordinates it encodes.
pub proof fn lemma_encode_decode(o: int, q: int, inn: int, nk: int, inner: int)
    requires
        0 <= o,
        0 <= q < nk,
        0 <= inn < inner,
    ensures
        ((o * nk + q) * inner + inn) / inner == o * nk + q,
        ((o * nk + q) * inner + inn) % inner == inn,
        (o * nk + q) % nk == q,
        (o * nk + q) / nk == o,
        ((o * nk + q) * inner + inn) / (nk * inner) == o,
{
    let f = (o * nk + q) * inner + inn;
    assert(0 <= o * nk + q) by (nonlinear_arith)
        requires
            0 <= o,
            0 <= q < nk,
    ;
    lemma_fundamental_div_mod_converse(f, inner, o * nk + q, inn);
    lemma_fundamental_div_mod_converse(o * nk + q, nk, o, q);
    assert(f == o * (nk * inner) + (q * inner + inn) && 0 <= q * inner + inn < nk * inner)
        by (nonlinear_arith)
        requires
            f == (o * nk + q) * inner + inn,
            0 <= o,
            0 <= q < nk,
            0 <= inn < inner,
    ;
    lemma_fundamental_div_mod_converse(f, nk * inner, o, q * inner + inn);
}

impl<T: Copy> Grid<T> {
    /// The elements of the slice at position `i` along `axis`, in the
    /// row-major order of the remaining axes.
    #[verifier::loop_isolation(false)]
    pub fn slice_data(&self, axis: usize, i: usize) -> (v: Vec<T>)
        requires
            self.wf(),
            axis < self.shape@.len(),
            i < self.shape@[axis as int],
        ensures
            v@ == slice_seq(self.data@, self.shape@, axis as int, i as int),
    {
        proof {
            lemma_axis_bounds(self.shape@, axis as int);
        }
        let outer = prod_before(&self.shape, axis);
        let nk = self.shape[axis];
        let inner = prod_after(&self.shape, axis);
        let total = outer * inner;
        let mut v: Vec<T> = Vec::new();
        let mut j: usize = 0;
        while j < total
            invariant
                j <= total,
                v@.len() == j,
                forall|t: int|
                    0 <= t < j ==> v@[t] == self.data@[((t / inner as int) * nk as int + i as int)
                        * inner as int + (t % inner as int)],
            decreases total - j,
        {
            proof {
                lemma_fundamental_div_mod(j as int, inner as int);
                lemma_mod_bound(j as int, inner as int);
                assert((j as int) / (inner as int) < outer as int) by (nonlinear_arith)
                    requires
                        inner as int > 0,
                        (j as int) < outer as int * inner as int,
                        j as int == inner as int * (j as int / inner as int) + j as int % inner
                            as int,
                        0 <= j as int % inner as int,
                ;
                let o = j as int / inner as int;
                let inn = j as int % inner as int;
                assert(0 <= o * nk as int && (o * nk as int + i as int) < outer as int * nk as int
                    && (o * nk as int + i as int) * inner as int + inn < (outer as int * nk as int)
                    * inner as int) by (nonlinear_arith)
                    requires
                        0 <= o < outer as int,
                        0 <= (i as int) < nk as int,
                        0 <= inn < inner as int,
                ;
            }
            let o = j / inner;
            let inn = j % inner;
            v.push(self.data[(o * nk + i) * inner + inn]);
            j = j + 1;
        }
        proof {
            assert(v@ =~= slice_seq(self.data@, self.shape@, axis as int, i as int));
        }
        v
    }
}

/// An element-for-element copy of a shape vector.
pub fn copy_shape(shape: &Vec<usize>) -> (out: Vec<usize>)
    ensures
        out@ == shape@,
{
    let n = shape.len();
    let mut out: Vec<usize> = Vec::new();
    let mut i: usize = 0;
    while i < n
        invariant
            i <= n,
            n == shape@.len(),
            out@ =~= shape@.take(i as int),
        decreases n - i,
    {
        out.push(shape[i]);
        i = i + 1;
    }
    proof {
        assert(out@ =~= shape@);
    }
    out
}

/// The row-major position of outer index `o`, axis index `q`, inner
/// index `inn`, under an axis split with extent `nk` and inner size
/// `inner`.
pub open spec fn enc(o: int, q: int, inn: int, nk: int, inner: int) -> int {
    (o * nk + q) * inner + inn
}

/// Reassembles per-slice rows into full row-major order: the element at
/// outer position `o`, axis position `q`, inner position `inn` comes
/// from part `q` at its own row-major position.
#[verifier::loop_isolation(false)]
pub fn assemble_axis<T: Copy>(parts: &Vec<Vec<T>>, outer: usize, nk: usize, inner: usize) -> (v:
    Vec<T>)
    requires
        parts@.len() == nk,
        forall|q: int| 0 <= q < nk ==> #[trigger] parts@[q]@.len() == outer as int * inner as int,
        outer as int * nk as int <= usize::MAX as int,
        (outer as int * nk as int) * inner as int <= usize::MAX as int,
        outer as int * inner as int <= usize::MAX as int,
    ensures
        v@.len() == (outer as int * nk as int) * inner as int,
        forall|o: int, q: int, inn: int|
            0 <= o < outer && 0 <= q < nk && 0 <= inn < inner ==> v@[#[trigger] enc(
                o,
                q,
                inn,
                nk as int,
                inner as int,
            )] == parts@[q]@[o * inner as int + inn],
{
    let total = (outer * nk) * inner;
    let mut v: Vec<T> = Vec::new();
    let mut f: usize = 0;
    while f < total
        invariant
            f <= total,
            v@.len() == f,
            forall|t: int|
                0 <= t < f ==> v@[t] == parts@[(t / inner as int) % nk as int]@[(t / (nk as int
                    * inner as int)) * inner as int + t % inner as int],
        decreases total - f,
    {
        proof {
            assert(nk as int * inner as int <= total as int && inner as int > 0 && nk as int > 0
                && nk as int * inner as int > 0) by (nonlinear_arith)
                requires
                    (f as int) < total as int,
                    total as int == (outer as int * nk as int) * inner as int,
                    0 <= outer as int,
                    0 <= nk as int,
                    0 <= inner as int,
            ;
            lemma_fundamental_div_mod(f as int, inner as int);
            lemma_mod_bound(f as int, inner as int);
            lemma_fundamental_div_mod(f as int / inner as int, nk as int);
            lemma_mod_bound(f as int / inner as int, nk as int);
            lemma_fundamental_div_mod(f as int, nk as int * inner as int);
            lemma_mod_bound(f as int, nk as int * inner as int);
            assert((f as int) / (nk as int * inner as int) < outer as int) by (nonlinear_arith)
                requires
                    nk as int * inner as int > 0,
                    (f as int) < (outer as int * nk as int) * inner as int,
                    f as int == (nk as int * inner as int) * (f as int / (nk as int * inner
                        as int)) + f as int % (nk as int * inner as int),
                    0 <= f as int % (nk as int * inner as int),
            ;
            let o = f as int / (nk as int * inner as int);
            let inn = f as int % inner as int;
            assert(o * inner as int + inn < outer as int * inner as int) by (nonlinear_arith)
                requires
                    0 <= o < outer as int,
                    0 <= inn < inner as int,
            ;
        }
        let q = (f / inner) % nk;
        let o = f / (nk * inner);
        let inn = f % inner;
        v.push(parts[q][o * inner + inn]);
        f = f + 1;
    }
    proof {
        assert forall|o: int, q: int, inn: int|
            0 <= o < outer && 0 <= q < nk && 0 <= inn < inner implies v@[#[trigger] enc(
            o,
            q,
            inn,
            nk as int,
            inner as int,
        )] == parts@[q]@[o * inner as int + inn] by {
            lemma_encode_decode(o, q, inn, nk as int, inner as int);
            assert(0 <= o * inner as int + inn < outer as int * inner as int) by (nonlinear_arith)
                requires
                    0 <= o < outer as int,
                    0 <= inn < inner as int,
            ;
            assert((o * nk as int + q) * inner as int + inn < total as int) by (nonlinear_arith)
                requires
                    0 <= o < outer as int,
                    0 <= q < nk as int,
                    0 <= inn < inner as int,
                    total as int == (outer as int * nk as int) * inner as int,
            ;
            assert(0 <= (o * nk as int + q) * inner as int + inn) by (nonlinear_arith)
                requires
                    0 <= o,
                    0 <= q,
                    0 <= inn,
                    0 <= inner as int,
                    0 <= nk as int,
            ;
        }
    }
    v
}

} // verus!
