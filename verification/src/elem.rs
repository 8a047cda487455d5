use vstd::prelude::*;

verus! {

/// One scalar cell of a grid: an ordinary finite value, one of the two
/// infinities, or a value that compares with nothing (the shape of a
/// floating-point NaN).
#[derive(Clone, Copy, Debug, PartialEq, Eq, Structural)]
pub enum Elem {
    NegInf,
    Finite(i64),
    PosInf,
    Nan,
}

/// An element takes part in ordering unless it is `Nan`.
pub open spec fn comparable(e: Elem) -> bool {
    !(e is Nan)
}

/// Finite means an ordinary value: not an infinity and not `Nan`.
pub open spec fn spec_is_finite(e: Elem) -> bool {
    e is Finite
}

/// The strict order on elements. `Nan` compares with nothing: every
/// comparison that involves it is false.
pub open spec fn spec_lt(a: Elem, b: Elem) -> bool {
    match (a, b) {
        (Elem::Nan, _) => false,
        (_, Elem::Nan) => false,
        (Elem::NegInf, Elem::NegInf) => false,
        (Elem::NegInf, _) => true,
        (_, Elem::NegInf) => false,
        (Elem::Finite(x), Elem::Finite(y)) => x < y,
        (Elem::Finite(_), Elem::PosInf) => true,
        (Elem::PosInf, _) => false,
    }
}

impl Elem {
    /// Strict comparison under the element order.
    pub fn lt(self, other: Elem) -> (r: bool)
        ensures
            r == spec_lt(self, other),
    {
        match (self, other) {
            (Elem::Nan, _) => false,
            (_, Elem::Nan) => false,
            (Elem::NegInf, Elem::NegInf) => false,
            (Elem::NegInf, _) => true,
            (_, Elem::NegInf) => false,
            (Elem::Finite(x), Elem::Finite(y)) => x < y,
            (Elem::Finite(_), Elem::PosInf) => true,
            (Elem::PosInf, _) => false,
        }
    }

    /// Whether the element is an ordinary finite value.
    pub fn is_finite(self) -> (r: bool)
        ensures
            r == spec_is_finite(self),
    {
        matches!(self, Elem::Finite(_))
    }

    /// Whether the element takes part in ordering.
    pub fn is_comparable(self) -> (r: bool)
        ensures
            r == comparable(self),
    {
        !matches!(self, Elem::Nan)
    }
}

} // verus!
