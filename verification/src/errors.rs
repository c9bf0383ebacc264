//! Why a command could not be carried out.

use vstd::prelude::*;

verus! {

#[derive(Debug, Clone, Copy, PartialEq, Eq, Structural)]
pub enum WmError {
    /// The container is not in the tree.
    NoParent,
    /// The container is on no workspace.
    NoWorkspace,
    /// The container is on no monitor.
    NoMonitor,
    /// The container does not lay out tiles.
    NoDirectionContainer,
    /// There is no tile beside the window.
    NoNeighbor,
    /// The window does not stand under the container.
    NoAncestor,
    /// There is no tile to place the window next to.
    NoNearestContainer,
    /// A position lies outside the range of pixel coordinates.
    OutOfRange,
    /// A window did not answer.
    NoAnswer,
    /// A keybinding has no keys.
    InvalidKeybinding,
    /// There are as many containers as a layout can hold.
    TooManyContainers,
}

} // verus!
