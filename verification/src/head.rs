//! A parser input that carries its place in the tree along with the text.

use vstd::prelude::*;

verus! {

/// The text still to be read, the root of the tree it is read into, and
/// the depth reached.
#[derive(Debug, Clone, Copy)]
pub struct Head<'i> {
    pub root: Option<usize>,
    pub depth: usize,
    pub input: &'i str,
}

/// What becomes of a text that is to be split before the first character
/// that satisfies a test.
#[derive(Debug, Clone, Copy, PartialEq, Eq, Structural)]
pub enum SplitPoint {
    /// The text is split at this byte.
    At(usize),
    /// More text is needed to tell.
    Incomplete,
    /// The part before the character would be empty, and may not be.
    Failed,
}

impl<'i> Head<'i> {
    /// The same place in the tree over another text.
    pub fn clone_new_str(&self, new_str: &'i str) -> (head: Head<'i>)
        ensures
            head.root == self.root,
            head.depth == self.depth,
            head.input == new_str,
    {
        Head { root: self.root, depth: self.depth, input: new_str }
    }

    /// Where to split a text that may go on, given the place `found` of the
    /// first character that satisfies the test: there, and nowhere as long
    /// as none does.
    pub fn split_at_position(found: Option<usize>) -> (split: SplitPoint)
        ensures
            split == match found {
                Some(i) => SplitPoint::At(i),
                None => SplitPoint::Incomplete,
            },
    {
        match found {
            Some(i) => SplitPoint::At(i),
            None => SplitPoint::Incomplete,
        }
    }

    /// As [`Head::split_at_position`], but the part before the character
    /// may not be empty.
    pub fn split_at_position1(found: Option<usize>) -> (split: SplitPoint)
        ensures
            split == match found {
                Some(i) => if i == 0 {
                    SplitPoint::Failed
                } else {
                    SplitPoint::At(i)
                },
                None => SplitPoint::Incomplete,
            },
    {
        match found {
            Some(i) => if i == 0 {
                SplitPoint::Failed
            } else {
                SplitPoint::At(i)
            },
            None => SplitPoint::Incomplete,
        }
    }

    /// Where to split a text of `len` bytes that is complete: at the first
    /// character that satisfies the test, or at the end where none does.
    pub fn split_at_position_complete(found: Option<usize>, len: usize) -> (split: SplitPoint)
        ensures
            split == match found {
                Some(i) => SplitPoint::At(i),
                None => SplitPoint::At(len),
            },
    {
        match found {
            Some(i) => SplitPoint::At(i),
            None => SplitPoint::At(len),
        }
    }

    /// As [`Head::split_at_position_complete`], but the part before the
    /// character may not be empty: neither at the start of the text nor
    /// where the text itself is empty.
    pub fn split_at_position1_complete(found: Option<usize>, len: usize) -> (split: SplitPoint)
        ensures
            split == match found {
                Some(i) => if i == 0 {
                    SplitPoint::Failed
                } else {
                    SplitPoint::At(i)
                },
                None => if len == 0 {
                    SplitPoint::Failed
                } else {
                    SplitPoint::At(len)
                },
            },
    {
        match found {
            Some(i) => if i == 0 {
                SplitPoint::Failed
            } else {
                SplitPoint::At(i)
            },
            None => if len == 0 {
                SplitPoint::Failed
            } else {
                SplitPoint::At(len)
            },
        }
    }
}

} // verus!
