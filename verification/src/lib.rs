//! A Llama-style transformer: a row-major tensor, the operators of the
//! forward pass, the cache of keys and values, the forward pass itself
//! and the generation loop.
//!
//! Everything is generic over the element type. The arithmetic of that
//! type is supplied by the caller through [`scalar::Scalar`], and nothing
//! is assumed about it: a contract states which operations produced each
//! element of a result, from which operands and in which order. Shapes,
//! offsets, the order of sampling and the growth of the cache are exact.

pub mod exact;
pub mod forward;
pub mod generate;
pub mod kvcache;
pub mod model;
pub mod operators;
pub mod reduce;
pub mod sampling;
pub mod scalar;
pub mod tensor;
