//! Animation blueprint construction: turns a decoded hierarchical model
//! description into an animation-ready blueprint — a bone hierarchy with
//! semantically tagged names and, per animation, a per-bone time-indexed
//! sequence of position/rotation/scale samples merged from independently
//! authored keyframe channels.
//!
//! All geometry and time values are fixed-point integers: one model unit is
//! [`math::SCALAR_ONE`] ticks of an `i64`. The host converts the document's
//! decimal numbers into this representation before calling in.

pub mod animation;
pub mod blueprint;
pub mod bone;
pub mod interpolate;
pub mod math;
pub mod model;
pub mod script;
pub mod text;
pub mod timeline;
