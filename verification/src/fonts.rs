//! The text-layout choices the UI makes. Rasterization and drawing live
//! with the caller.

use vstd::prelude::*;

verus! {

/// How a run of text is placed against its anchor point.
pub enum TextAlign {
    Left,
    Center,
    Right,
}

} // verus!
