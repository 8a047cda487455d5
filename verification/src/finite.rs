use vstd::prelude::*;

use crate::elem::{spec_is_finite, Elem};
use crate::grid::{prod, prod_pos, slice_seq, Grid};
use crate::view::ElemsView;

verus! {

/// Number of finite entries of `s`.
pub open spec fn count_fin(s: Seq<Elem>) -> int
    decreases s.len(),
{
    if s.len() == 0 {
        0
    } else {
        count_fin(s.drop_last()) + if spec_is_finite(s.last()) {
            1int
        } else {
            0int
        }
    }
}

/// Number of non-finite entries of `s`.
pub open spec fn count_nonfin(s: Seq<Elem>) -> int
    decreases s.len(),
{
    if s.len() == 0 {
        0
    } else {
        count_nonfin(s.drop_last()) + if spec_is_finite(s.last()) {
            0int
        } else {
            1int
        }
    }
}

/// The view after a fill: every non-finite entry replaced by `with`,
/// every finite entry kept.
pub open spec fn fill_seq(s: Seq<Elem>, with: Elem) -> Seq<Elem> {
    Seq::new(
        s.len(),
        |j: int|
            if spec_is_finite(s[j]) {
                s[j]
            } else {
                with
            },
    )
}

/// The finite and the non-finite entries together are all entries.
pub proof fn lemma_count_partition(s: Seq<Elem>)
    ensures
        count_fin(s) + count_nonfin(s) == s.len(),
        0 <= count_fin(s),
        0 <= count_nonfin(s),
    decreases s.len(),
{
    if s.len() > 0 {
        lemma_count_partition(s.drop_last());
    }
}

/// Filling with a finite value leaves no non-finite entry, and never
/// touches a finite one.
pub proof fn lemma_fill_finite(s: Seq<Elem>, with: Elem)
    requires
        spec_is_finite(with),
    ensures
        count_nonfin(fill_seq(s, with)) == 0,
        forall|j: int|
            0 <= j < s.len() && spec_is_finite(s[j]) ==> fill_seq(s, with)[j] == s[j],
    decreases s.len(),
{
    if s.len() > 0 {
        assert(fill_seq(s, with).drop_last() =~= fill_seq(s.drop_last(), with));
        lemma_fill_finite(s.drop_last(), with);
    }
}

/// Filling twice with one replacement is the same as filling once,
/// whatever the replacement.
pub proof fn lemma_fill_idempotent(s: Seq<Elem>, with: Elem)
    ensures
        fill_seq(fill_seq(s, with), with) == fill_seq(s, with),
{
    assert(fill_seq(fill_seq(s, with), with) =~= fill_seq(s, with));
}

/// Counts the finite entries of a flat vector.
fn count_finite_data(data: &Vec<Elem>) -> (r: usize)
    ensures
        r as int == count_fin(data@),
{
    let n = data.len();
    let mut r: usize = 0;
    let mut k: usize = 0;
    while k < n
        invariant
            k <= n,
            n == data@.len(),
            r as int == count_fin(data@.take(k as int)),
            r <= k,
        decreases n - k,
    {
        if data[k].is_finite() {
            r = r + 1;
        }
        k = k + 1;
        proof {
            assert(data@.take(k as int).drop_last() =~= data@.take(k as int - 1));
        }
    }
    proof {
        assert(data@.take(n as int) =~= data@);
    }
    r
}

/// Counts the non-finite entries of a flat vector.
fn count_non_finite_data(data: &Vec<Elem>) -> (r: usize)
    ensures
        r as int == count_nonfin(data@),
{
    let n = data.len();
    let mut r: usize = 0;
    let mut k: usize = 0;
    while k < n
        invariant
            k <= n,
            n == data@.len(),
            r as int == count_nonfin(data@.take(k as int)),
            r <= k,
        decreases n - k,
    {
        if !data[k].is_finite() {
            r = r + 1;
        }
        k = k + 1;
        proof {
            assert(data@.take(k as int).drop_last() =~= data@.take(k as int - 1));
        }
    }
    proof {
        assert(data@.take(n as int) =~= data@);
    }
    r
}

/// Counting finite and non-finite elements of a container.
pub trait CountExt: ElemsView {
    /// The number of finite elements.
    fn count_finite(&self) -> (r: usize)
        ensures
            r as int == count_fin(self.elems()),
    ;

    /// The number of non-finite elements.
    fn count_non_finite(&self) -> (r: usize)
        ensures
            r as int == count_nonfin(self.elems()),
    ;
}

impl CountExt for Grid<Elem> {
    fn count_finite(&self) -> (r: usize) {
        count_finite_data(&self.data)
    }

    fn count_non_finite(&self) -> (r: usize) {
        count_non_finite_data(&self.data)
    }
}

/// Replacing the non-finite elements of a container in place.
pub trait FillInPlaceExt: ElemsView {
    /// Replaces every non-finite element with `with`; finite elements
    /// and the shape stay untouched.
    fn fill_non_finite_inplace(&mut self, with: Elem)
        ensures
            final(self).extents() == old(self).extents(),
            final(self).elems() == fill_seq(old(self).elems(), with),
            old(self).well_formed() ==> final(self).well_formed(),
    ;
}

impl FillInPlaceExt for Grid<Elem> {
    fn fill_non_finite_inplace(&mut self, with: Elem) {
        let n = self.data.len();
        let mut out: Vec<Elem> = Vec::new();
        let mut j: usize = 0;
        while j < n
            invariant
                j <= n,
                self.data@ == old(self).data@,
                self.shape@ == old(self).shape@,
                n == self.data@.len(),
                out@.len() == j,
                forall|p: int| 0 <= p < j ==> out@[p] == fill_seq(old(self).data@, with)[p],
            decreases n - j,
        {
            let e = self.data[j];
            if e.is_finite() {
                out.push(e);
            } else {
                out.push(with);
            }
            j = j + 1;
        }
        self.data = out;
        proof {
            assert(self.data@ =~= fill_seq(old(self).data@, with));
        }
    }
}

/// Per-slice finite counts along an axis.
pub trait CountAxisExt: ElemsView {
    /// One count of finite elements per slice along `axis`, in axis
    /// order, as a one-dimensional grid.
    fn count_finite_axis(&self, axis: usize) -> (out: Grid<usize>)
        requires
            self.well_formed(),
            axis < self.extents().len(),
        ensures
            out.wf(),
            out.shape@ == seq![self.extents()[axis as int]],
            out.data@.len() == self.extents()[axis as int] as int,
            forall|q: int|
                0 <= q < out.data@.len() ==> out.data@[q] as int == count_fin(
                    slice_seq(self.elems(), self.extents(), axis as int, q),
                ),
    ;

    /// One count of non-finite elements per slice along `axis`, in axis
    /// order, as a one-dimensional grid.
    fn count_non_finite_axis(&self, axis: usize) -> (out: Grid<usize>)
        requires
            self.well_formed(),
            axis < self.extents().len(),
        ensures
            out.wf(),
            out.shape@ == seq![self.extents()[axis as int]],
            out.data@.len() == self.extents()[axis as int] as int,
            forall|q: int|
                0 <= q < out.data@.len() ==> out.data@[q] as int == count_nonfin(
                    slice_seq(self.elems(), self.extents(), axis as int, q),
                ),
    ;
}

impl CountAxisExt for Grid<Elem> {
    fn count_finite_axis(&self, axis: usize) -> (out: Grid<usize>) {
        let nk = self.shape[axis];
        let mut data: Vec<usize> = Vec::new();
        let mut q: usize = 0;
        while q < nk
            invariant
                q <= nk,
                nk == self.shape@[axis as int],
                self.wf(),
                axis < self.shape@.len(),
                data@.len() == q,
                forall|p: int|
                    0 <= p < q ==> data@[p] as int == count_fin(
                        slice_seq(self.data@, self.shape@, axis as int, p),
                    ),
            decreases nk - q,
        {
            let sd = self.slice_data(axis, q);
            data.push(count_finite_data(&sd));
            q = q + 1;
        }
        let mut shape: Vec<usize> = Vec::new();
        shape.push(nk);
        let out = Grid { shape, data };
        proof {
            assert(out.shape@ =~= seq![nk]);
            assert(out.shape@.drop_last() =~= Seq::<usize>::empty());
            assert(out.shape@.len() == 1 && out.shape@.last() == nk);
            assert(prod(Seq::<usize>::empty()) == 1);
            assert(prod_pos(Seq::<usize>::empty()) == 1);
            assert(prod(out.shape@) == 1 * nk as int);
            assert(prod_pos(out.shape@) <= usize::MAX as int);
        }
        out
    }

    fn count_non_finite_axis(&self, axis: usize) -> (out: Grid<usize>) {
        let nk = self.shape[axis];
        let mut data: Vec<usize> = Vec::new();
        let mut q: usize = 0;
        while q < nk
            invariant
                q <= nk,
                nk == self.shape@[axis as int],
                self.wf(),
                axis < self.shape@.len(),
                data@.len() == q,
                forall|p: int|
                    0 <= p < q ==> data@[p] as int == count_nonfin(
                        slice_seq(self.data@, self.shape@, axis as int, p),
                    ),
            decreases nk - q,
        {
            let sd = self.slice_data(axis, q);
            data.push(count_non_finite_data(&sd));
            q = q + 1;
        }
        let mut shape: Vec<usize> = Vec::new();
        shape.push(nk);
        let out = Grid { shape, data };
        proof {
            assert(out.shape@ =~= seq![nk]);
            assert(out.shape@.drop_last() =~= Seq::<usize>::empty());
            assert(out.shape@.len() == 1 && out.shape@.last() == nk);
            assert(prod(Seq::<usize>::empty()) == 1);
            assert(prod_pos(Seq::<usize>::empty()) == 1);
            assert(prod(out.shape@) == 1 * nk as int);
            assert(prod_pos(out.shape@) <= usize::MAX as int);
        }
        out
    }
}

} // verus!
