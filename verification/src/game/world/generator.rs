use vstd::prelude::*;

verus! {

/// How new chunks are filled.
#[derive(Clone, Copy, Debug, PartialEq, Eq, Structural)]
pub enum GenerationType {
    Flat,
    Test,
}

} // verus!
