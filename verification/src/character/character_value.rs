//! The state of one value of a character.

use vstd::prelude::*;

verus! {

/// A value of a character: what the user set and what follows from it.
#[derive(Clone, Copy, Debug, PartialEq, Eq, Structural)]
pub struct CharacterValue {
    /// The value as set by the user.
    pub base: i32,
    /// The value after dependencies and modifications, as computed last.
    pub actual: i32,
}

impl CharacterValue {
    /// A value that nothing has been added to yet.
    pub fn new(base: i32) -> (r: Self)
        ensures
            r == (CharacterValue { base, actual: base }),
    {
        CharacterValue { base, actual: base }
    }
}

} // verus!
