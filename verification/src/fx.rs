//! The effect chain's stage names.

use vstd::prelude::*;

verus! {

/// Where the effect chain hands its signal out: the finished output, or
/// (for comparison with recordings of the browser version) an earlier stage.
#[derive(Clone, Copy, PartialEq, Eq, Structural, Default, Debug)]
pub enum Tap {
    #[default]
    Out,
    Voice,
    Dist,
    Crush,
    Phaser,
}

} // verus!
