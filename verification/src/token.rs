//! The tokens of the character scanner.

use vstd::prelude::*;

verus! {

/// A token of an outline text.
#[derive(Debug, Clone, PartialEq)]
pub enum Token {
    Anchor,
    Text(String),
    AnchorID(i32),
    Blob(String),
}

} // verus!
