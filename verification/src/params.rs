//! Parameter blocks of the kernels, word for word as the device reads them,
//! and the operation codes they carry.

use vstd::prelude::*;

use crate::broadcasting::BroadcastInfo;

verus! {

/// Which elementwise operation a binary kernel launch applies.
#[allow(non_camel_case_types)]
#[derive(Clone, Copy, Debug, PartialEq, Eq, Structural)]
pub enum BinaryOperation {
    ADD,
    SUBTRACT,
    MULTIPLY,
    DIVIDE,
    POWER,
    MINIMUM,
    MAXIMUM,
    REMAINDER,
    EQUAL,
}

impl BinaryOperation {
    /// The code of the operation in a parameter block.
    pub fn code(self) -> (r: u32)
        ensures
            r == self.spec_code(),
    {
        match self {
            BinaryOperation::ADD => 0,
            BinaryOperation::SUBTRACT => 1,
            BinaryOperation::MULTIPLY => 2,
            BinaryOperation::DIVIDE => 3,
            BinaryOperation::POWER => 4,
            BinaryOperation::MINIMUM => 5,
            BinaryOperation::MAXIMUM => 6,
            BinaryOperation::REMAINDER => 7,
            BinaryOperation::EQUAL => 8,
        }
    }

    /// The code of the operation in a parameter block.
    pub open spec fn spec_code(self) -> u32 {
        match self {
            BinaryOperation::ADD => 0u32,
            BinaryOperation::SUBTRACT => 1u32,
            BinaryOperation::MULTIPLY => 2u32,
            BinaryOperation::DIVIDE => 3u32,
            BinaryOperation::POWER => 4u32,
            BinaryOperation::MINIMUM => 5u32,
            BinaryOperation::MAXIMUM => 6u32,
            BinaryOperation::REMAINDER => 7u32,
            BinaryOperation::EQUAL => 8u32,
        }
    }
}

/// Which operation a unary kernel launch applies.
#[allow(non_camel_case_types)]
#[derive(Clone, Copy, Debug, PartialEq, Eq, Structural)]
pub enum UnaryOperation {
    NEGATE,
    ABSOLUTE,
    RECIPROCAL,
    SQUARE_ROOT,
    RECIPROCAL_SQUARE_ROOT,
    EXPONENTIAL,
    LOGARITHM,
    COPY,
    SIGN,
}

impl UnaryOperation {
    /// The code of the operation in a parameter block.
    pub fn code(self) -> (r: u32)
        ensures
            r == self.spec_code(),
    {
        match self {
            UnaryOperation::NEGATE => 0,
            UnaryOperation::ABSOLUTE => 1,
            UnaryOperation::RECIPROCAL => 2,
            UnaryOperation::SQUARE_ROOT => 3,
            UnaryOperation::RECIPROCAL_SQUARE_ROOT => 4,
            UnaryOperation::EXPONENTIAL => 5,
            UnaryOperation::LOGARITHM => 6,
            UnaryOperation::COPY => 7,
            UnaryOperation::SIGN => 8,
        }
    }

    /// The code of the operation in a parameter block.
    pub open spec fn spec_code(self) -> u32 {
        match self {
            UnaryOperation::NEGATE => 0u32,
            UnaryOperation::ABSOLUTE => 1u32,
            UnaryOperation::RECIPROCAL => 2u32,
            UnaryOperation::SQUARE_ROOT => 3u32,
            UnaryOperation::RECIPROCAL_SQUARE_ROOT => 4u32,
            UnaryOperation::EXPONENTIAL => 5u32,
            UnaryOperation::LOGARITHM => 6u32,
            UnaryOperation::COPY => 7u32,
            UnaryOperation::SIGN => 8u32,
        }
    }
}

/// Which combination a reduction kernel launch applies.
#[allow(non_camel_case_types)]
#[derive(Clone, Copy, Debug, PartialEq, Eq, Structural)]
pub enum ReductionOperation {
    SUM,
    PRODUCT,
    MINIMUM,
    MAXIMUM,
}

impl ReductionOperation {
    /// The code of the operation in a parameter block.
    pub fn code(self) -> (r: u32)
        ensures
            r == self.spec_code(),
    {
        match self {
            ReductionOperation::SUM => 0,
            ReductionOperation::PRODUCT => 1,
            ReductionOperation::MINIMUM => 2,
            ReductionOperation::MAXIMUM => 3,
        }
    }

    /// The code of the operation in a parameter block.
    pub open spec fn spec_code(self) -> u32 {
        match self {
            ReductionOperation::SUM => 0u32,
            ReductionOperation::PRODUCT => 1u32,
            ReductionOperation::MINIMUM => 2u32,
            ReductionOperation::MAXIMUM => 3u32,
        }
    }
}

/// Parameters of a unary launch: element count and operation.
#[derive(Clone, Copy, Debug, PartialEq, Eq, Structural)]
pub struct UnaryParameters {
    pub length: u32,
    pub operation: UnaryOperation,
}

/// Parameters of a binary launch: the broadcast block, the output element
/// count and the operation, padded to a multiple of 16 bytes.
#[derive(Clone, Copy, Debug)]
pub struct BinaryParameters {
    pub info: BroadcastInfo,
    pub length: u32,
    pub operation: BinaryOperation,
    pub pad0: u32,
    pub pad1: u32,
}

/// Parameters of a broadcast launch: the broadcast block and the output
/// element count, padded to a multiple of 16 bytes.
#[derive(Clone, Copy, Debug)]
pub struct BroadcastParameters {
    pub info: BroadcastInfo,
    pub length: u32,
    pub pad0: u32,
    pub pad1: u32,
    pub pad2: u32,
}

/// Parameters of a matrix-product launch: the broadcast block (its first
/// two dimensions are the output tiles), the shared inner size, the number
/// of tiles, and the output matrix size (columns, rows).
#[derive(Clone, Copy, Debug)]
pub struct MatmulParameters {
    pub info: BroadcastInfo,
    pub inner_size: u32,
    pub tile_count: u32,
    pub size: [u32; 2],
}

/// Parameters of one reduction pass: the operation, log2 of the lanes that
/// combine into one output, and the extents of the dimensions before, along
/// and after the reduced one.
#[derive(Clone, Copy, Debug, PartialEq, Eq, Structural)]
pub struct ReductionParameters {
    pub operation: ReductionOperation,
    pub cluster_shift: u32,
    pub inner_size: u32,
    pub reduction_size: u32,
    pub outer_size: u32,
}

} // verus!
