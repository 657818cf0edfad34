//! Signal graph of a modular synthesizer: components connected by directed
//! edges, evaluated one sample at a time by wave-based, change-gated
//! propagation with a per-component iteration bound.
//!
//! The library is generic over the value type `V` that travels along the
//! edges. It owns the topology, the input slots, the registers and the
//! outputs, and decides which component is evaluated next; the host computes
//! each evaluation and reports whether the output changed.

pub mod component;
pub mod sampler;
pub mod sketch;

pub use component::{
    Component, ComponentType, Destination, COMPONENT_INPUT_LENGTH, COMPONENT_REGISTER_LENGTH,
    DIFF_TIME_INPUT,
};
pub use sketch::{
    infinite_loop_code, Phase, Sketch, SketchError, Step, MAX_LOOP_COUNT, RETURN_CODE_INFINITE_LOOP_DETECTED,
    RETURN_CODE_SUCCESS, SKETCH_COMPONENT_MAX_LENGTH,
};
pub use sampler::{ProcessError, Sampler};
