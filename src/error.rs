use crate::expression::Variable;
use vstd::prelude::*;

verus! {

/// Why a discretisation could not be produced.
#[derive(Debug, PartialEq, Eq)]
pub enum DiscretiseError {
    /// The equation needs a derivative that the stencil gives no
    /// approximation for.
    UnknownDerivative(Variable, usize),
    /// A name in the equation is neither a declared constant nor a declared
    /// function.
    UnknownIdentifier(String),
    /// A mixed partial derivative, which is not discretised.
    UnsupportedConstruct,
    /// Two stencil points along one axis coincide, so the Taylor table is
    /// singular.
    SingularStencil,
    /// The Taylor table could not be inverted exactly: a pivot was zero or a
    /// value did not fit in the fixed-width rationals.
    InversionFailed,
}

} // verus!
