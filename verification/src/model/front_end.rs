//! Names and descriptions for a user interface.

use vstd::prelude::*;

verus! {

/// Stores front end data.
#[derive(Debug, Hash)]
pub struct FrontEnd {
    /// Name of the element
    pub name: String,
    /// Short name of the element
    pub name_short: Option<String>,
    /// Description of the element
    pub description: Option<String>,
}

impl FrontEnd {
    /// Create a new set of front end values.
    pub fn new(name: &str) -> (r: Self)
        ensures
            r.name@ == name@,
            r.name_short is None,
            r.description is None,
    {
        FrontEnd { name: name.to_owned(), name_short: None, description: None }
    }
}

} // verus!
