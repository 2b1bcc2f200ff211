//! A broad-phase spatial index (quad/oct tree with bucketed leaves) and the
//! narrow-phase collision tests built on top of it: ray-triangle intersection
//! for ground-height queries and a restricted separating-axis test for
//! solid-object push-out.
//!
//! Scalar coordinates are IEEE 754 single-precision values carried by their
//! 32-bit patterns; `float_bits` holds the ordering semantics and the trusted
//! arithmetic layer.

pub mod float_bits;
pub mod math;
pub mod quadoctree;
pub mod collision;
pub mod client;
pub mod fonts;
pub mod fps_count;
pub mod message;
pub mod player;
