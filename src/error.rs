use vstd::prelude::*;

verus! {

/// The ways an operation of this library can fail.
#[derive(Debug, Clone, Copy, PartialEq, Eq, Structural)]
pub enum Error {
    /// A matrix cell or a canvas pixel was addressed outside its bounds.
    IndexError,
    /// A matrix order outside {2, 3, 4} was asked for.
    ConfigurationError,
}

} // verus!
