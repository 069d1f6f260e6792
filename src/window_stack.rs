//! The focus history under the name that the window tracker's users know.
use vstd::prelude::*;

verus! {

/// The focus history of windows: see [`crate::stack::Stack`].
pub type WindowStack = crate::stack::Stack;

} // verus!
