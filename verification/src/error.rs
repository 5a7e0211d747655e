//! The ways in which markup can be broken.
use crate::normalize::Attributed;
use crate::select::Container;
use vstd::prelude::*;

verus! {

/// Markup that opens something and does not end it.
#[derive(Clone, Copy, Debug, PartialEq, Eq, Structural)]
pub enum MalformedMarkup {
    /// The opening tag of a container begins at `offset` of the text that was
    /// searched, and no closing tag of its kind follows it.
    Unclosed { container: Container, offset: usize },
    /// An opening tag of this kind of element is not ended by `>`.
    Unterminated { element: Attributed },
}

impl MalformedMarkup {
    /// The same fault in a text that begins `by` bytes earlier: the offset
    /// of an unclosed container is greater by as much.
    pub open spec fn shifted(self, by: int) -> MalformedMarkup {
        match self {
            MalformedMarkup::Unclosed { container, offset } => MalformedMarkup::Unclosed {
                container,
                offset: (offset + by) as usize,
            },
            MalformedMarkup::Unterminated { element } => self,
        }
    }
}

} // verus!
