//! The two choices a resize is made with.

use vstd::prelude::*;

verus! {

/// Whether a resize adds pixels along the axis or takes them away.
#[derive(Clone, Copy, Debug, PartialEq, Eq, Structural)]
pub enum Mode {
    Grow,
    Shrink,
}

/// The axis along which the size changes: `Horizontal` changes the width,
/// `Vertical` the height.
#[derive(Clone, Copy, Debug, PartialEq, Eq, Structural)]
pub enum Orientation {
    Horizontal,
    Vertical,
}

} // verus!
