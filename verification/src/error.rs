use vstd::prelude::*;

verus! {

/// Every way an operation of the library can be refused.
#[derive(Clone, Copy, Debug, PartialEq, Eq, Structural)]
pub enum TensorError {
    ShapeMismatch,
    OversizedTensor,
    OversizedDispatch,
    IndexOutOfBounds,
    IncompatibleMatrices,
    InvalidLossShape,
    InvalidRange,
    TrainableWriteDuringLearning,
    StagingBufferNotMapped,
    StagingBufferMapFailed,
    InsufficientData,
    ExcessData,
}

} // verus!
