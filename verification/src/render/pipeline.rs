use vstd::prelude::*;

verus! {

/// The render stages a frame can use.
#[derive(PartialEq, Eq, Structural, Hash)]
pub enum PipelineType {
    Default,
    DebugWireframe,
    Sky,
}

} // verus!
