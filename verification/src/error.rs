//! Errors reported while a model is built or a calculation is evaluated.

use vstd::prelude::*;

verus! {

/// Why an operation was refused.
#[derive(Clone, Copy, Debug, PartialEq, Eq, Structural)]
pub enum ErrorKind {
    /// A calculation still holds a placeholder that was never replaced.
    UnboundPlaceholder,
    /// The requested edge would make a value depend on itself.
    CyclicDependency,
}

} // verus!
