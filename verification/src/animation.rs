//! Names of animated properties, such as `transform.position.x`.

use vstd::prelude::*;

verus! {

/// The dotted path of an animated property; tracks are keyed by it.
#[derive(Clone, Debug, PartialEq, Eq, Hash)]
pub struct PropertyPath(pub String);

impl PropertyPath {
    pub fn new(path: &str) -> (p: Self)
        ensures
            p.0@ == path@,
    {
        PropertyPath(path.to_owned())
    }
}

} // verus!
