//! Best-effort, non-executing inspection of the Python pickle format.
//!
//! Bytes are decoded into instructions by [`parsers::parse_ops`], the
//! instructions are run on a stack machine by [`eval::evaluate`], and the
//! values left on the stack come back as a tree of [`value::Value`] nodes
//! together with the memo table that the run built. [`torch`] recognizes the
//! tensors of a PyTorch checkpoint in such a tree.

pub mod eval;
pub mod ops;
pub mod parsers;
pub mod torch;
pub mod value;

pub use crate::eval::evaluate;
pub use crate::parsers::parse_ops;
pub use crate::torch::{RepugnantTorchTensor, RepugnantTorchTensors, TensorType};
pub use crate::value::{SequenceType, Value};
