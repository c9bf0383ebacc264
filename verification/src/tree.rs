//! The container tree as a mathematical object.
//!
//! Containers are numbered. A container that has left the tree keeps its number
//! and has no parent.

use vstd::prelude::*;

use crate::active_drag::ActiveDrag;
use crate::geometry::{int_min, Rect, RectDelta, TilingDirection};
use crate::lists::{first_place, filtered, position, shifted, spliced, without};
use crate::shares::{
    clamped_target, equal_weights, part, saturated, share_ok, spread, total, MAX_CONTAINERS, WHOLE,
};

verus! {

#[derive(Debug, Clone, Copy, PartialEq, Eq, Structural)]
pub enum ContainerKind {
    Root,
    Monitor,
    Workspace,
    Split,
    TilingWindow,
    NonTilingWindow,
}

#[derive(Debug, Clone, Copy, PartialEq, Eq, Structural)]
pub struct FloatingStateConfig {
    pub centered: bool,
    pub shown_on_top: bool,
}

#[derive(Debug, Clone, Copy, PartialEq, Eq, Structural)]
pub struct FullscreenStateConfig {
    pub maximized: bool,
    pub shown_on_top: bool,
}

#[derive(Debug, Clone, Copy, PartialEq, Eq, Structural)]
pub enum WindowState {
    Floating(FloatingStateConfig),
    Fullscreen(FullscreenStateConfig),
    Minimized,
    Tiling,
}

/// What is known of a window on the screen.
#[derive(Debug, Clone, Copy, PartialEq, Eq)]
pub struct WindowProps {
    pub state: WindowState,
    /// The frame that the window has on the screen.
    pub frame: Rect,
    /// Where the window goes while it floats.
    pub floating_placement: Rect,
    /// The smallest width and height that the window accepts as a tile.
    pub minimum_tiling_size: Option<(i32, i32)>,
    /// How far the frame reaches beyond the tile.
    pub border_delta: RectDelta,
    /// How far the frame with its shadows reaches beyond the tile.
    pub total_border_delta: RectDelta,
    pub is_resizable: bool,
    pub is_maximized: bool,
    pub has_pending_dpi_adjustment: bool,
    pub has_insertion_target: bool,
    pub active_drag: Option<ActiveDrag>,
}

/// Pixels between neighboring tiles.
#[derive(Debug, Clone, Copy, PartialEq, Eq, Structural)]
pub struct Gaps {
    pub x: i32,
    pub y: i32,
}

/// The part of a container that does not link it to others.
#[derive(Debug, Clone, Copy, PartialEq, Eq)]
pub struct NodeData {
    pub kind: ContainerKind,
    pub tiling_direction: TilingDirection,
    /// The share of the parent's length, for tiles.
    pub tiling_size: i64,
    /// The area of a monitor or a workspace.
    pub rect: Rect,
    pub inner_gaps: Gaps,
    pub window: WindowProps,
}

/// A container with its links.
#[verifier::ext_equal]
pub struct NodeView {
    pub parent: Option<usize>,
    pub children: Seq<usize>,
    /// The children, the most recently focused first.
    pub focus: Seq<usize>,
    /// Shares that children had before they were stacked.
    pub unstack: Seq<(usize, i64)>,
    pub data: NodeData,
}

pub type Tree = Seq<NodeView>;

impl ContainerKind {
    pub open spec fn is_tile(self) -> bool {
        self == ContainerKind::Split || self == ContainerKind::TilingWindow
    }

    pub open spec fn is_direction(self) -> bool {
        self == ContainerKind::Workspace || self == ContainerKind::Split
    }

    pub open spec fn is_window(self) -> bool {
        self == ContainerKind::TilingWindow || self == ContainerKind::NonTilingWindow
    }

    /// Which kinds of container may stand inside which.
    pub open spec fn holds(self, child: ContainerKind) -> bool {
        match self {
            ContainerKind::Root => child == ContainerKind::Monitor,
            ContainerKind::Monitor => child == ContainerKind::Workspace,
            ContainerKind::Workspace | ContainerKind::Split => child == ContainerKind::Split
                || child.is_window(),
            _ => false,
        }
    }
}

pub open spec fn kind(t: Tree, id: usize) -> ContainerKind {
    t[id as int].data.kind
}

pub open spec fn is_tile(t: Tree, id: usize) -> bool {
    kind(t, id).is_tile()
}

pub open spec fn valid(t: Tree, id: usize) -> bool {
    id < t.len()
}

/// Each container has a lower rank than the one it stands in.
pub open spec fn ranked(t: Tree, rank: Seq<int>) -> bool {
    &&& rank.len() == t.len()
    &&& forall|c: int|
        0 <= c < t.len() ==> (#[trigger] t[c].parent matches Some(p) ==> valid(t, p) && rank[c]
            < rank[p as int])
}

/// No container stands inside itself, at any depth.
pub open spec fn acyclic(t: Tree) -> bool {
    exists|rank: Seq<int>| ranked(t, rank)
}

/// A container is listed by its parent, which may hold such a container.
pub open spec fn listed(t: Tree, c: int) -> bool {
    t[c].parent matches Some(p) ==> valid(t, p) && t[p as int].children.contains(c as usize)
        && kind(t, p).holds(t[c].data.kind)
}

/// The containers form trees: parents and children agree, every container lists
/// each child once in both orders, kinds nest as they should, and no container
/// stands inside itself.
pub open spec fn wf(t: Tree) -> bool {
    &&& t.len() <= MAX_CONTAINERS && t.len() <= usize::MAX
    &&& acyclic(t)
    &&& forall|c: int| 0 <= c < t.len() ==> #[trigger] listed(t, c)
    &&& forall|p: int, k: int|
        0 <= p < t.len() && 0 <= k < t[p].children.len() ==> valid(t, #[trigger] t[p].children[k])
            && t[t[p].children[k] as int].parent == Some(p as usize)
    &&& forall|p: int| 0 <= p < t.len() ==> (#[trigger] t[p].children).no_duplicates()
    &&& forall|p: int| 0 <= p < t.len() ==> (#[trigger] t[p].focus).no_duplicates()
    &&& forall|p: int| 0 <= p < t.len() ==> share_ok(#[trigger] t[p].data.tiling_size as int)
    &&& forall|p: int, y: usize|
        0 <= p < t.len() ==> (#[trigger] t[p].focus.contains(y) <==> t[p].children.contains(y))
}

pub open spec fn with_parent(t: Tree, id: usize, parent: Option<usize>) -> Tree {
    t.update(id as int, NodeView { parent, ..t[id as int] })
}

pub open spec fn with_children(t: Tree, id: usize, children: Seq<usize>) -> Tree {
    t.update(id as int, NodeView { children, ..t[id as int] })
}

pub open spec fn with_focus(t: Tree, id: usize, focus: Seq<usize>) -> Tree {
    t.update(id as int, NodeView { focus, ..t[id as int] })
}

pub open spec fn with_unstack(t: Tree, id: usize, unstack: Seq<(usize, i64)>) -> Tree {
    t.update(id as int, NodeView { unstack, ..t[id as int] })
}

pub open spec fn with_data(t: Tree, id: usize, data: NodeData) -> Tree {
    t.update(id as int, NodeView { data, ..t[id as int] })
}

pub open spec fn with_share(t: Tree, id: usize, share: i64) -> Tree {
    with_data(t, id, NodeData { tiling_size: share, ..t[id as int].data })
}

pub open spec fn with_direction(t: Tree, id: usize, direction: TilingDirection) -> Tree {
    with_data(t, id, NodeData { tiling_direction: direction, ..t[id as int].data })
}

pub open spec fn with_window(t: Tree, id: usize, window: WindowProps) -> Tree {
    with_data(t, id, NodeData { window, ..t[id as int].data })
}

/// The tiles among some containers.
pub open spec fn tiles_in(t: Tree, ids: Seq<usize>) -> Seq<usize>
    decreases ids.len(),
{
    if ids.len() == 0 {
        ids
    } else if is_tile(t, ids.last()) {
        tiles_in(t, ids.drop_last()).push(ids.last())
    } else {
        tiles_in(t, ids.drop_last())
    }
}

/// The tiles of a container, in layout order.
pub open spec fn tiles(t: Tree, id: usize) -> Seq<usize> {
    tiles_in(t, t[id as int].children)
}

/// The other tiles of the container that a tile stands in.
pub open spec fn tile_siblings(t: Tree, id: usize) -> Seq<usize> {
    match t[id as int].parent {
        Some(p) => without(tiles(t, p), id),
        None => Seq::empty(),
    }
}

pub open spec fn share_of(t: Tree, id: usize) -> i64 {
    t[id as int].data.tiling_size
}

pub open spec fn shares_of(t: Tree, ids: Seq<usize>) -> Seq<i64> {
    Seq::new(ids.len(), |i: int| share_of(t, ids[i]))
}

/// The tree after giving each container its new share.
pub open spec fn with_shares(t: Tree, ids: Seq<usize>, shares: Seq<i64>) -> Tree
    decreases ids.len(),
{
    if ids.len() == 0 {
        t
    } else {
        with_share(with_shares(t, ids.drop_last(), shares.drop_last()), ids.last(), shares.last())
    }
}

/// The tree after moving each container under another parent, without the
/// parents' own lists.
pub open spec fn with_parents(t: Tree, ids: Seq<usize>, parent: Option<usize>) -> Tree
    decreases ids.len(),
{
    if ids.len() == 0 {
        t
    } else {
        with_parent(with_parents(t, ids.drop_last(), parent), ids.last(), parent)
    }
}

/// A tile takes the share that `target` asks for, within what the minimums of its
/// siblings leave; the siblings make up the difference.
pub open spec fn resized(t: Tree, id: usize, target: int) -> Tree {
    let siblings = tile_siblings(t, id);
    if siblings.len() == 0 {
        with_share(t, id, WHOLE)
    } else {
        let share = clamped_target(target, siblings.len());
        with_shares(
            with_share(t, id, share as i64),
            siblings,
            spread(shares_of(t, siblings), share - share_of(t, id)),
        )
    }
}

/// The shares of a split's tiles as shares of the split's parent.
pub open spec fn scaled(shares: Seq<i64>, by: int) -> Seq<i64> {
    Seq::new(
        shares.len(),
        |i: int|
            saturated(
                (by * total(shares.take(i + 1))) / (WHOLE as int) - (by * total(shares.take(i)))
                    / (WHOLE as int),
            ),
    )
}

/// The tree after a split has been replaced by its children.
#[verifier::opaque]
pub open spec fn flattened(t: Tree, split: usize) -> Tree {
    match t[split as int].parent {
        Some(p) => {
            let node = t[split as int];
            let kids = tiles_in(t, node.children);
            let t1 = with_shares(
                t,
                kids,
                scaled(shares_of(t, kids), node.data.tiling_size as int),
            );
            let t2 = with_parents(t1, node.children, Some(p));
            let t3 = with_children(
                t2,
                p,
                spliced(
                    t[p as int].children,
                    position(t[p as int].children, split),
                    node.children,
                ),
            );
            let t4 = with_focus(
                t3,
                p,
                spliced(t[p as int].focus, position(t[p as int].focus, split), node.focus),
            );
            let t5 = with_children(t4, split, Seq::empty());
            let t6 = with_focus(t5, split, Seq::empty());
            with_parent(t6, split, None)
        },
        None => t,
    }
}

/// Whether a container is all that its parent, a split, holds.
pub open spec fn is_only_child_of_split(t: Tree, id: usize) -> bool {
    t[id as int].parent matches Some(p) && kind(t, p) == ContainerKind::Split
        && t[p as int].children.len() == 1
}

/// The tree after the container's parent has been flattened, where that parent is
/// a split with nothing else in it.
pub open spec fn only_child_freed(t: Tree, id: usize) -> Tree {
    if is_only_child_of_split(t, id) {
        flattened(t, t[id as int].parent->0)
    } else {
        t
    }
}

/// The tree after a container has been taken out; its siblings share what it had.
pub open spec fn unlinked(t: Tree, id: usize) -> Tree {
    match t[id as int].parent {
        Some(p) => {
            let t1 = with_children(t, p, without(t[p as int].children, id));
            let t2 = with_focus(t1, p, without(t[p as int].focus, id));
            let t3 = with_parent(t2, id, None);
            if is_tile(t, id) {
                let siblings = tiles(t3, p);
                with_shares(t3, siblings, spread(shares_of(t3, siblings), -share_of(t, id)))
            } else {
                t3
            }
        },
        None => t,
    }
}

/// The tree after a container has been taken out of it.
pub open spec fn detached(t: Tree, id: usize) -> Tree {
    unlinked(only_child_freed(t, id), id)
}

/// The tree after a container has been put into another one, before sizes.
pub open spec fn linked(t: Tree, id: usize, parent: usize, index: int) -> Tree {
    let t1 = with_children(t, parent, t[parent as int].children.insert(index, id));
    let t2 = with_focus(t1, parent, t[parent as int].focus.push(id));
    with_parent(t2, id, Some(parent))
}

/// The share that a tile gets when it joins some siblings: an equal one.
pub open spec fn joining_share(siblings: nat) -> int {
    (WHOLE as int) / (siblings as int + 1)
}

/// The tree after a container has been put into another one. A tile takes an equal
/// share from its new siblings.
pub open spec fn attached(t: Tree, id: usize, parent: usize, index: int) -> Tree {
    let t1 = linked(t, id, parent, index);
    if is_tile(t, id) {
        resized(with_share(t1, id, 0), id, joining_share(tile_siblings(t1, id).len()))
    } else {
        t1
    }
}

/// Whether a container is the first in its parent's focus order, and so on up to
/// the top.
pub open spec fn has_focus(t: Tree, id: usize, fuel: nat) -> bool
    decreases fuel,
{
    match t[id as int].parent {
        Some(p) => fuel > 0 && t[p as int].focus.len() > 0 && t[p as int].focus[0] == id
            && has_focus(t, p, (fuel - 1) as nat),
        None => true,
    }
}

/// The tree after a container, and all it stands in, have been put first in the
/// focus orders up to the top.
pub open spec fn focused(t: Tree, id: usize, fuel: nat) -> Tree
    decreases fuel,
{
    match t[id as int].parent {
        Some(p) if fuel > 0 => focused(
            with_focus(t, p, without(t[p as int].focus, id).insert(0, id)),
            p,
            (fuel - 1) as nat,
        ),
        _ => t,
    }
}

/// The tree after a container has been moved to a place under `parent`. A container
/// that had the focus keeps it.
#[verifier::opaque]
pub open spec fn moved(t: Tree, id: usize, parent: usize, index: int) -> Tree {
    if t[id as int].parent == Some(parent) {
        with_children(t, parent, shifted(t[parent as int].children, id, index))
    } else {
        let t1 = detached(t, id);
        let t2 = attached(
            t1,
            id,
            parent,
            int_min(index, t1[parent as int].children.len() as int),
        );
        if has_focus(t, id, t.len()) {
            focused(t2, id, t.len())
        } else {
            t2
        }
    }
}

/// The shares of some tiles as shares of a split that holds just them.
pub open spec fn as_split_shares(shares: Seq<i64>) -> Seq<i64> {
    let weights = if total(shares) > 0 {
        shares
    } else {
        equal_weights(shares.len())
    };
    Seq::new(shares.len(), |i: int| saturated(part(WHOLE as int, weights, i)))
}

/// The tree after some tiles of a container have been wrapped in a split, which
/// stands where the first of them stood.
#[verifier::opaque]
pub open spec fn wrapped(t: Tree, split: usize, parent: usize, ids: Seq<usize>) -> Tree {
    let node = t[parent as int];
    let shares = shares_of(t, ids);
    let t1 = with_shares(t, ids, as_split_shares(shares));
    let t2 = with_parents(t1, ids, Some(split));
    let t3 = with_children(
        t2,
        parent,
        filtered(node.children.insert(first_place(node.children, ids), split), ids, false),
    );
    let t4 = with_focus(
        t3,
        parent,
        filtered(node.focus.insert(first_place(node.focus, ids), split), ids, false),
    );
    let t5 = with_children(t4, split, ids);
    let t6 = with_focus(t5, split, filtered(node.focus, ids, true));
    let t7 = with_share(t6, split, saturated(total(shares)));
    with_parent(t7, split, Some(parent))
}

} // verus!
