//! The kinds of interpolation offered over the design space.
//!
//! The interpolation itself runs on floating point outside the library; this
//! is the data the choice is carried around as.

use vstd::prelude::*;

verus! {

/// How sample points are interpolated between masters.
#[derive(Debug, Clone, Copy, PartialEq, Eq, Structural)]
pub enum InterpType {
    Gaussian,
    ThinPlate,
    Linear,
}

impl Default for InterpType {
    /// The kind used when none has been chosen.
    fn default() -> (r: InterpType)
        ensures
            r == InterpType::Gaussian,
    {
        InterpType::Gaussian
    }
}

} // verus!
