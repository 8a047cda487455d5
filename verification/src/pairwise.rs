use vstd::prelude::*;

use crate::elem::{spec_lt, Elem};
use crate::grid::Grid;
use crate::view::ElemsView;

verus! {

/// The elementwise maximum view: at each position the right element
/// replaces the left exactly when the left is strictly smaller. A `Nan`
/// on the left therefore stays; a `Nan` on the right is ignored.
pub open spec fn max_seq(a: Seq<Elem>, b: Seq<Elem>) -> Seq<Elem> {
    Seq::new(
        a.len(),
        |j: int|
            if spec_lt(a[j], b[j]) {
                b[j]
            } else {
                a[j]
            },
    )
}

/// The elementwise minimum view: at each position the right element
/// replaces the left exactly when it is strictly smaller than the left.
pub open spec fn min_seq(a: Seq<Elem>, b: Seq<Elem>) -> Seq<Elem> {
    Seq::new(
        a.len(),
        |j: int|
            if spec_lt(b[j], a[j]) {
                b[j]
            } else {
                a[j]
            },
    )
}

/// Builds the elementwise combine of two equally long vectors; `take_min`
/// picks which of the two orders decides.
fn combine_data(a: &Vec<Elem>, b: &Vec<Elem>, take_min: bool) -> (out: Vec<Elem>)
    requires
        a@.len() == b@.len(),
    ensures
        out@ == if take_min {
            min_seq(a@, b@)
        } else {
            max_seq(a@, b@)
        },
{
    let n = a.len();
    let mut out: Vec<Elem> = Vec::new();
    let mut j: usize = 0;
    while j < n
        invariant
            j <= n,
            n == a@.len() == b@.len(),
            out@.len() == j,
            forall|p: int|
                0 <= p < j ==> out@[p] == (if take_min {
                    min_seq(a@, b@)
                } else {
                    max_seq(a@, b@)
                })[p],
        decreases n - j,
    {
        let x = a[j];
        let y = b[j];
        let pick_other = if take_min {
            y.lt(x)
        } else {
            x.lt(y)
        };
        if pick_other {
            out.push(y);
        } else {
            out.push(x);
        }
        j = j + 1;
    }
    proof {
        if take_min {
            assert(out@ =~= min_seq(a@, b@));
        } else {
            assert(out@ =~= max_seq(a@, b@));
        }
    }
    out
}

/// Elementwise combination with another, same-shaped container, in place.
pub trait PairwiseInplaceExt: ElemsView {
    /// Replaces each element with the larger of it and the element of
    /// `other` at the same position.
    fn maximum_with_inplace(&mut self, other: &Self)
        requires
            old(self).extents() == other.extents(),
            old(self).elems().len() == other.elems().len(),
        ensures
            final(self).extents() == old(self).extents(),
            final(self).elems() == max_seq(old(self).elems(), other.elems()),
            old(self).well_formed() ==> final(self).well_formed(),
    ;

    /// Replaces each element with the smaller of it and the element of
    /// `other` at the same position.
    fn minimum_with_inplace(&mut self, other: &Self)
        requires
            old(self).extents() == other.extents(),
            old(self).elems().len() == other.elems().len(),
        ensures
            final(self).extents() == old(self).extents(),
            final(self).elems() == min_seq(old(self).elems(), other.elems()),
            old(self).well_formed() ==> final(self).well_formed(),
    ;
}

impl PairwiseInplaceExt for Grid<Elem> {
    fn maximum_with_inplace(&mut self, other: &Grid<Elem>) {
        let data = combine_data(&self.data, &other.data, false);
        self.data = data;
    }

    fn minimum_with_inplace(&mut self, other: &Grid<Elem>) {
        let data = combine_data(&self.data, &other.data, true);
        self.data = data;
    }
}

/// Elementwise combination with another, same-shaped container, into a
/// new container.
pub trait PairwiseExt: ElemsView + Sized {
    /// The elementwise maximum with `other`.
    fn maximum_with(&self, other: &Self) -> (out: Self)
        requires
            self.extents() == other.extents(),
            self.elems().len() == other.elems().len(),
        ensures
            out.extents() == self.extents(),
            out.elems() == max_seq(self.elems(), other.elems()),
            self.well_formed() ==> out.well_formed(),
    ;

    /// The elementwise minimum with `other`.
    fn minimum_with(&self, other: &Self) -> (out: Self)
        requires
            self.extents() == other.extents(),
            self.elems().len() == other.elems().len(),
        ensures
            out.extents() == self.extents(),
            out.elems() == min_seq(self.elems(), other.elems()),
            self.well_formed() ==> out.well_formed(),
    ;
}

impl PairwiseExt for Grid<Elem> {
    fn maximum_with(&self, other: &Grid<Elem>) -> (out: Grid<Elem>) {
        let shape = crate::grid::copy_shape(&self.shape);
        let data = combine_data(&self.data, &other.data, false);
        Grid { shape, data }
    }

    fn minimum_with(&self, other: &Grid<Elem>) -> (out: Grid<Elem>) {
        let shape = crate::grid::copy_shape(&self.shape);
        let data = combine_data(&self.data, &other.data, true);
        Grid { shape, data }
    }
}

} // verus!
