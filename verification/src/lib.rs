//! Integer core of the Stair One sound engine: the seeded random generator,
//! the knob table's identifiers, the patch vocabularies, the voice pool that
//! decides which voice a pad press takes, the sample ring buffers of the
//! Web Audio parts, and the command-line rules of the render tool.

pub mod dsp;
pub mod engine;
pub mod fx;
pub mod params;
pub mod patches;
pub mod render;
pub mod rng;
pub mod voice;
