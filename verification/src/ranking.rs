use vstd::prelude::*;

use crate::bucket::{discretize_flat, discretize_of};
use crate::elem::Elem;
use crate::grid::{
    assemble_axis, copy_shape, enc, lemma_axis_bounds, prod, prod_after, prod_before, slice_seq,
    Grid,
};
use crate::rank::{rank_flat, rank_of, RankMethod};
use crate::view::ElemsView;

verus! {

/// Whole-container ranking and discretization.
pub trait RankExt: ElemsView {
    /// Ranks the whole container: the shape is kept, every comparable
    /// element gets its 1-based rank under `method`, and every
    /// non-comparable element the sentinel 0.
    fn rank(&self, method: RankMethod) -> (out: Grid<usize>)
        ensures
            out.shape@ == self.extents(),
            out.data@.len() == self.elems().len(),
            forall|j: int|
                0 <= j < self.elems().len() ==> out.data@[j] as int == rank_of(
                    self.elems(),
                    method,
                    j,
                ),
            self.well_formed() ==> out.wf(),
    ;

    /// Buckets the whole container: ranks under `method`, then every
    /// non-sentinel rank mapped to its bucket among `buckets` requested
    /// buckets; the sentinel 0 is kept.
    fn discretize(&self, method: RankMethod, buckets: usize) -> (out: Grid<usize>)
        requires
            buckets >= 1,
        ensures
            out.shape@ == self.extents(),
            out.data@.len() == self.elems().len(),
            forall|j: int|
                0 <= j < self.elems().len() ==> out.data@[j] as int == discretize_of(
                    self.elems(),
                    method,
                    buckets as int,
                    j,
                ),
            self.well_formed() ==> out.wf(),
    ;
}

impl RankExt for Grid<Elem> {
    fn rank(&self, method: RankMethod) -> (out: Grid<usize>) {
        let shape = copy_shape(&self.shape);
        let data = rank_flat(&self.data, method);
        Grid { shape, data }
    }

    fn discretize(&self, method: RankMethod, buckets: usize) -> (out: Grid<usize>) {
        let shape = copy_shape(&self.shape);
        let data = discretize_flat(&self.data, method, buckets);
        Grid { shape, data }
    }
}

/// Per-axis ranking and discretization: the whole-container operation
/// applied independently to every slice along one axis.
pub trait RankAxisExt: ElemsView {
    /// Ranks independently within every slice along `axis`; elements of
    /// different slices never mix, so ties and rank density are scoped
    /// strictly to one slice.
    fn rank_axis(&self, axis: usize, method: RankMethod) -> (out: Grid<usize>)
        requires
            self.well_formed(),
            axis < self.extents().len(),
        ensures
            out.wf(),
            out.shape@ == self.extents(),
            forall|o: int, q: int, inn: int|
                0 <= o < prod(self.extents().take(axis as int)) && 0 <= q
                    < self.extents()[axis as int] && 0 <= inn < prod(
                    self.extents().skip(axis as int + 1),
                ) ==> out.data@[#[trigger] enc(
                    o,
                    q,
                    inn,
                    self.extents()[axis as int] as int,
                    prod(self.extents().skip(axis as int + 1)),
                )] as int == rank_of(
                    slice_seq(self.elems(), self.extents(), axis as int, q),
                    method,
                    o * prod(self.extents().skip(axis as int + 1)) + inn,
                ),
    ;

    /// Buckets independently within every slice along `axis`: every
    /// slice gets its own ranks, greatest rank and cut points.
    fn discretize_axis(&self, axis: usize, method: RankMethod, buckets: usize) -> (out: Grid<
        usize,
    >)
        requires
            self.well_formed(),
            axis < self.extents().len(),
            buckets >= 1,
        ensures
            out.wf(),
            out.shape@ == self.extents(),
            forall|o: int, q: int, inn: int|
                0 <= o < prod(self.extents().take(axis as int)) && 0 <= q
                    < self.extents()[axis as int] && 0 <= inn < prod(
                    self.extents().skip(axis as int + 1),
                ) ==> out.data@[#[trigger] enc(
                    o,
                    q,
                    inn,
                    self.extents()[axis as int] as int,
                    prod(self.extents().skip(axis as int + 1)),
                )] as int == discretize_of(
                    slice_seq(self.elems(), self.extents(), axis as int, q),
                    method,
                    buckets as int,
                    o * prod(self.extents().skip(axis as int + 1)) + inn,
                ),
    ;
}

impl RankAxisExt for Grid<Elem> {
    #[verifier::loop_isolation(false)]
    fn rank_axis(&self, axis: usize, method: RankMethod) -> (out: Grid<usize>) {
        proof {
            lemma_axis_bounds(self.shape@, axis as int);
        }
        let outer = prod_before(&self.shape, axis);
        let nk = self.shape[axis];
        let inner = prod_after(&self.shape, axis);
        let mut parts: Vec<Vec<usize>> = Vec::new();
        let mut q: usize = 0;
        while q < nk
            invariant
                q <= nk,
                parts@.len() == q,
                forall|t: int|
                    0 <= t < q ==> (#[trigger] parts@[t])@.len() == outer as int * inner as int,
                forall|t: int, p: int|
                    #![trigger parts@[t]@[p]]
                    0 <= t < q && 0 <= p < outer as int * inner as int ==> parts@[t]@[p] as int
                        == rank_of(slice_seq(self.data@, self.shape@, axis as int, t), method, p),
            decreases nk - q,
        {
            let sd = self.slice_data(axis, q);
            let rq = rank_flat(&sd, method);
            parts.push(rq);
            q = q + 1;
        }
        let data = assemble_axis(&parts, outer, nk, inner);
        let shape = copy_shape(&self.shape);
        let out = Grid { shape, data };
        proof {
            assert forall|o: int, qq: int, inn: int|
                0 <= o < outer as int && 0 <= qq < nk as int && 0 <= inn < inner
                    as int implies out.data@[#[trigger] enc(o, qq, inn, nk as int, inner as int)]
                as int == rank_of(
                slice_seq(self.data@, self.shape@, axis as int, qq),
                method,
                o * inner as int + inn,
            ) by {
                assert(0 <= o * inner as int + inn < outer as int * inner as int)
                    by (nonlinear_arith)
                    requires
                        0 <= o < outer as int,
                        0 <= inn < inner as int,
                ;
            }
        }
        out
    }

    #[verifier::loop_isolation(false)]
    fn discretize_axis(&self, axis: usize, method: RankMethod, buckets: usize) -> (out: Grid<
        usize,
    >) {
        proof {
            lemma_axis_bounds(self.shape@, axis as int);
        }
        let outer = prod_before(&self.shape, axis);
        let nk = self.shape[axis];
        let inner = prod_after(&self.shape, axis);
        let mut parts: Vec<Vec<usize>> = Vec::new();
        let mut q: usize = 0;
        while q < nk
            invariant
                q <= nk,
                parts@.len() == q,
                forall|t: int|
                    0 <= t < q ==> (#[trigger] parts@[t])@.len() == outer as int * inner as int,
                forall|t: int, p: int|
                    #![trigger parts@[t]@[p]]
                    0 <= t < q && 0 <= p < outer as int * inner as int ==> parts@[t]@[p] as int
                        == discretize_of(
                        slice_seq(self.data@, self.shape@, axis as int, t),
                        method,
                        buckets as int,
                        p,
                    ),
            decreases nk - q,
        {
            let sd = self.slice_data(axis, q);
            let rq = discretize_flat(&sd, method, buckets);
            parts.push(rq);
            q = q + 1;
        }
        let data = assemble_axis(&parts, outer, nk, inner);
        let shape = copy_shape(&self.shape);
        let out = Grid { shape, data };
        proof {
            assert forall|o: int, qq: int, inn: int|
                0 <= o < outer as int && 0 <= qq < nk as int && 0 <= inn < inner
                    as int implies out.data@[#[trigger] enc(o, qq, inn, nk as int, inner as int)]
                as int == discretize_of(
                slice_seq(self.data@, self.shape@, axis as int, qq),
                method,
                buckets as int,
                o * inner as int + inn,
            ) by {
                assert(0 <= o * inner as int + inn < outer as int * inner as int)
                    by (nonlinear_arith)
                    requires
                        0 <= o < outer as int,
                        0 <= inn < inner as int,
                ;
            }
        }
        out
    }
}

} // verus!
