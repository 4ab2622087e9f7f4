//! Piecewise-constant (step) functions over an integer domain.
//!
//! A step function is an ordered collection of segments, each pairing an
//! interval of the domain with a stored value.  The library supports point
//! evaluation, incremental construction with newest-segment-wins overlay
//! semantics, pointwise multiplication of two step functions, and scalar
//! scaling.  Every operation carries a contract relating it to the
//! mathematical point-set semantics of the intervals involved.

pub mod builder;
pub mod interval;
pub mod multiply;
pub mod segment;
pub mod step_function;

pub use builder::SmallPiecewiseBuilder;
pub use interval::Interval;
pub use segment::ValueOverInterval;
pub use step_function::SmallPiecewise;
