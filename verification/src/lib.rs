//! Shape, broadcasting, dispatch and staging logic of a GPU tensor library.
//!
//! Everything here computes on plain values: tensor shapes, GPU parameter
//! blocks, dispatch grids, staging-buffer offsets. The GPU side (buffers,
//! pipelines, command encoding) lives in the application crate, which feeds
//! these functions and executes their plans.

pub mod error;
pub mod shape;
pub mod indices;
pub mod indexing;
pub mod staging;
pub mod tensor_size;
pub mod device;
pub mod dispatch;
pub mod params;
pub mod plans;
pub mod pool;
pub mod reduction;
pub mod fastdiv;
pub mod autograd;
pub mod broadcasting;
pub mod ints;

pub use error::TensorError;
