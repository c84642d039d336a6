//! The Painter's text vocabulary: how a text anchor sits relative to its
//! string, and which face a string is set in. The Painter itself measures in
//! floating point and lives in the application.

use vstd::prelude::*;

verus! {

/// Where a text anchor sits relative to the string.
#[derive(Clone, Copy, Debug, PartialEq, Eq, Structural)]
pub enum Align {
    Left,
    Center,
    Right,
}

/// The face a string is set in: the monospace body face the numbers live in,
/// or the display face of the wordmark and banners.
#[derive(Clone, Copy, Debug, PartialEq, Eq, Structural)]
pub enum Typeface {
    Mono,
    Display,
}

} // verus!
