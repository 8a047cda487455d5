use vstd::prelude::*;

use crate::elem::Elem;
use crate::grid::Grid;

verus! {

/// The spec-level view that a container of elements offers to every
/// contract: its elements in row-major order, the extents of its axes,
/// and whether its bookkeeping is intact.
pub trait ElemsView {
    /// The elements in row-major order.
    spec fn elems(&self) -> Seq<Elem>;

    /// The extents of the axes.
    spec fn extents(&self) -> Seq<usize>;

    /// Whether the container's element count and shape agree.
    spec fn well_formed(&self) -> bool;
}

impl ElemsView for Grid<Elem> {
    open spec fn elems(&self) -> Seq<Elem> {
        self.data@
    }

    open spec fn extents(&self) -> Seq<usize> {
        self.shape@
    }

    open spec fn well_formed(&self) -> bool {
        self.wf()
    }
}

} // verus!
