//! What the pen reports.

use vstd::prelude::*;

verus! {

/// The pen comes down.
pub const INPUT_PEN_PRESS: i32 = 0x20;

/// The pen goes up.
pub const INPUT_PEN_RELEASE: i32 = 0x21;

/// The pen moves while it is down.
pub const INPUT_PEN_UPDATE: i32 = 0x22;

/// A report: what happened, on which device, where, and how hard. Pressing with
/// the eraser is negative.
#[derive(Clone, Copy, PartialEq, Eq, Structural, Debug)]
pub struct InputEvent {
    pub input_type: i32,
    pub dev_id: i32,
    pub x: i32,
    pub y: i32,
    pub d: i32,
}

} // verus!
