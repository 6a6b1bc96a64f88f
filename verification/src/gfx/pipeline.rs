use vstd::prelude::*;

verus! {

/// A pipeline state that can be switched on.
pub enum Enable {
    PrimitiveRestart,
    DepthClamp,
    RasterizerDiscard,
    SampleShading,
    AlphaCoverage,
    AlphaOne,
    DepthWrite,
}

} // verus!
