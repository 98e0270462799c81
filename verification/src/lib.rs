//! Keeps a viewport rectangle of fixed aspect ratio fitted and centred in a
//! resizable surface.
//!
//! A host hands over its cameras and surfaces as a [`entity::Scene`] and
//! reports what changed as [`signal::Signal`]s. A synchronization pass
//! resolves each signal to the cameras it concerns and writes to each the
//! rectangle that [`geometry::fit`] computes. Everything is computed in
//! integers: an aspect ratio is a pair of positive integers, and a rectangle
//! is cut to whole pixels. A ratio that the host holds as a floating-point
//! number is read as the simplest fraction that rounds to that number.
//!
//! - [`geometry`]: rectangles, ratios and the fitting function.
//! - [`binary32`]: the ratio that a floating-point number stands for.
//! - [`entity`]: cameras, surfaces and the scene that holds them.
//! - [`signal`]: change signals and the detectors that emit them.
//! - [`resolve`]: from a signal to pairs of camera and surface.
//! - [`sync`]: the applier, the pass and the tick.
//! - [`laws`]: what a pass fits, and what it does not depend on.

pub mod binary32;
pub mod entity;
pub mod geometry;
pub mod laws;
pub mod resolve;
pub mod signal;
pub mod sync;
