//! Styles of text.

use vstd::prelude::*;

verus! {

/// The index of a style in the theme.
#[derive(Debug, Clone, Copy, PartialEq, Eq, Structural)]
pub struct Highlight(pub u32);

} // verus!
