//! Moving tiled windows through the layout.

use vstd::prelude::*;

use crate::errors::WmError;
use crate::frame_laws::{moving_changes_shares_only, same_but_shares};
use crate::geometry::{Direction, TilingDirection};
use crate::layout::{blank_data, lone, new_node_data, Layout};
use crate::lists::{
    lemma_position, lemma_position_is, lemma_shifted, lemma_without, lemma_without_at, position,
    remove_item, shifted, without,
};
use crate::pending_sync::{PendingSync, PendingSyncView};
use crate::shares::{floor_div, saturate, saturated, share_ok, MAX_CONTAINERS, WHOLE};
use crate::split_ops::{child_splits_flattened, unstack_fraction, unstack_remembered};
use crate::traversal::{
    ancestors, descendant_in_direction, lemma_descendant_in_direction, lemma_sibling_in_direction,
    sibling_in_direction, workspace_of,
};
use crate::tree::{
    is_tile, kind, moved, resized, share_of, tiles, valid, wf, with_direction, with_share,
    with_shares, wrapped, ContainerKind, Gaps, NodeData, Tree,
};
use crate::tree_laws::{
    are_tiles_of, lemma_children, lemma_parent_facts, lemma_same_links_wf, lemma_tiles,
    lemma_tiles_in, lemma_tiles_same_kinds, lemma_with_shares, reordering_is_undone, same_kinds,
};
use crate::window_laws::{
    keeps_windows, lemma_keeps_windows_twice, lemma_same_links_keeps_windows,
    lemma_window_childless, moving_keeps_windows, wrapping_keeps_windows,
};
use crate::window_size::Outcome;

verus! {

/// The data of a new split.
pub open spec fn split_data(direction: TilingDirection, gaps: Gaps) -> NodeData {
    NodeData {
        tiling_direction: direction,
        inner_gaps: gaps,
        ..blank_data(ContainerKind::Split)
    }
}

/// The tree with a new split, not linked to anything yet.
pub open spec fn with_new_split(t: Tree, direction: TilingDirection, gaps: Gaps) -> Tree {
    t.push(lone(split_data(direction, gaps)))
}

pub proof fn lemma_new_split(t: Tree, direction: TilingDirection, gaps: Gaps, parent: usize)
    requires
        wf(t),
        valid(t, parent),
    ensures
        tiles(with_new_split(t, direction, gaps), parent) == tiles(t, parent),
        keeps_windows(t, with_new_split(t, direction, gaps)),
{
    let u = with_new_split(t, direction, gaps);
    lemma_children(t, parent);
    let ids = t[parent as int].children;
    assert forall|k: int| 0 <= k < ids.len() implies kind(t, #[trigger] ids[k]) == kind(
        u,
        ids[k],
    ) by {
        assert(valid(t, t[parent as int].children[k]));
    }
    lemma_tiles_same_kinds(t, u, ids);
}

pub(crate) fn new_split(layout: &mut Layout, direction: TilingDirection, gaps: Gaps) -> (split: usize)
    requires
        old(layout).wf(),
        old(layout)@.len() < MAX_CONTAINERS,
    ensures
        split == old(layout)@.len(),
        final(layout)@ == with_new_split(old(layout)@, direction, gaps),
        final(layout).wf(),
{
    let data = NodeData {
        tiling_direction: direction,
        inner_gaps: gaps,
        ..new_node_data(ContainerKind::Split)
    };
    layout.add_container(data)
}

pub(crate) fn move_child(layout: &mut Layout, window: usize, parent: usize, index: usize)
    requires
        old(layout).wf(),
        valid(old(layout)@, window),
        valid(old(layout)@, parent),
        kind(old(layout)@, window).is_window(),
        old(layout)@[window as int].parent is Some,
        kind(old(layout)@, parent).is_direction(),
    ensures
        final(layout)@ == moved(old(layout)@, window, parent, index as int),
        final(layout).wf(),
        same_kinds(old(layout)@, final(layout)@),
        keeps_windows(old(layout)@, final(layout)@),
        same_but_shares(old(layout)@, final(layout)@),
        final(layout)@[window as int].parent == Some(parent),
{
    proof {
        lemma_window_childless(layout@, window);
        moving_changes_shares_only(layout@, window, parent, index as int);
        moving_keeps_windows(layout@, window, parent, index as int);
    }
    layout.move_container_within_tree(window, parent, index);
}

/// What moving a tiled window past or into the tile beside it comes to.
pub open spec fn moved_to_sibling(
    t: Tree,
    sync: PendingSyncView,
    window: usize,
    sibling: usize,
    direction: Direction,
) -> Outcome {
    let parent = t[window as int].parent->0;
    let place = position(t[parent as int].children, sibling);
    if kind(t, sibling) == ContainerKind::TilingWindow {
        // The two windows swap.
        (
            moved(t, window, parent, place),
            sync.with_redraw(sibling).with_redraw(window),
            Ok(()),
        )
    } else if !direction.is_vertical() && t[sibling as int].data.tiling_direction
        == TilingDirection::Vertical {
        // Past a column as a whole.
        let u = moved(t, window, parent, place);
        (u, sync.with_redraws(tiles(u, parent)), Ok(()))
    } else {
        match descendant_in_direction(t, sibling, direction.inverse(), t.len()) {
            None => (t, sync, Ok(())),
            Some(inner) => {
                let target = t[inner as int].parent->0;
                let index = position(t[target as int].children, inner);
                let matching = TilingDirection::from_direction(direction)
                    == t[target as int].data.tiling_direction;
                let u = moved(
                    t,
                    window,
                    target,
                    if !direction.is_backward() && matching {
                        index
                    } else {
                        index + 1
                    },
                );
                (u, sync.with_redraw(target).with_redraws(tiles(u, parent)), Ok(()))
            },
        }
    }
}

/// Whether a window goes past its sibling, rather than into it.
pub open spec fn goes_past(t: Tree, sibling: usize, direction: Direction) -> bool {
    ||| kind(t, sibling) == ContainerKind::TilingWindow
    ||| !direction.is_vertical() && t[sibling as int].data.tiling_direction
        == TilingDirection::Vertical
}

/// A window that goes past its sibling stays in the row or column, all containers keep their
/// shares, and what stands in the sibling stays as it was: an arrow to the left or right does not
/// put a window into a column.
#[verifier::spinoff_prover]
pub proof fn passing_changes_only_the_order(
    t: Tree,
    sync: PendingSyncView,
    window: usize,
    sibling: usize,
    direction: Direction,
)
    requires
        wf(t),
        valid(t, window),
        t[window as int].parent is Some,
        goes_past(t, sibling, direction),
    ensures
        ({
            let parent = t[window as int].parent->0;
            let u = moved_to_sibling(t, sync, window, sibling, direction).0;
            &&& u.len() == t.len()
            &&& forall|i: int| 0 <= i < t.len() && i != parent ==> #[trigger] u[i] == t[i]
            &&& u[parent as int].data == t[parent as int].data
            &&& u[parent as int].children.len() == t[parent as int].children.len()
            &&& forall|y: usize|
                #![trigger u[parent as int].children.contains(y)]
                u[parent as int].children.contains(y) <==> t[parent as int].children.contains(y)
        }),
{
    reveal(moved);
    lemma_parent_facts(t, window);
    let all = t[t[window as int].parent->0 as int].children;
    assert(t[t[window as int].parent->0 as int].children.no_duplicates());
    lemma_position(all, sibling);
    lemma_shifted(all, window, position(all, sibling));
}

/// A window that goes past the sibling next to it, and then back, leaves the tree as it was.
pub proof fn passing_is_undone(
    t: Tree,
    sync: PendingSyncView,
    window: usize,
    sibling: usize,
    direction: Direction,
)
    requires
        wf(t),
        valid(t, window),
        t[window as int].parent is Some,
        goes_past(t, sibling, direction),
        ({
            let all = t[t[window as int].parent->0 as int].children;
            &&& all.contains(sibling)
            &&& position(all, sibling) == position(all, window) + 1 || position(all, sibling)
                == position(all, window) - 1
        }),
    ensures
        ({
            let u = moved_to_sibling(t, sync, window, sibling, direction).0;
            &&& goes_past(u, sibling, direction.inverse())
            &&& moved_to_sibling(u, sync, window, sibling, direction.inverse()).0 == t
        }),
{
    reveal(moved);
    let parent = t[window as int].parent->0;
    lemma_parent_facts(t, window);
    passing_changes_only_the_order(t, sync, window, sibling, direction);
    let all = t[parent as int].children;
    assert(t[parent as int].children.no_duplicates());
    let place = position(all, sibling);
    let from = position(all, window);
    lemma_position(all, sibling);
    lemma_position(all, window);
    lemma_shifted(all, window, place);
    lemma_without_at(all, window, from);
    let u = moved_to_sibling(t, sync, window, sibling, direction).0;
    let after = shifted(all, window, place);
    assert(u[parent as int].children == after);
    assert(after[from] == sibling);
    lemma_position_is(after, sibling, from);
    reordering_is_undone(t, window, parent, place);
}

#[verifier::spinoff_prover]
pub(crate) fn move_to_sibling_container(
    layout: &mut Layout,
    sync: &mut PendingSync,
    window: usize,
    sibling: usize,
    direction: Direction,
) -> (res: Result<(), WmError>)
    requires
        old(layout).wf(),
        valid(old(layout)@, window),
        valid(old(layout)@, sibling),
        kind(old(layout)@, window) == ContainerKind::TilingWindow,
        old(layout)@[window as int].parent is Some,
        is_tile(old(layout)@, sibling),
        old(layout)@[sibling as int].parent == old(layout)@[window as int].parent,
    ensures
        (final(layout)@, final(sync)@, res) == moved_to_sibling(
            old(layout)@,
            old(sync)@,
            window,
            sibling,
            direction,
        ),
        final(layout).wf(),
        keeps_windows(old(layout)@, final(layout)@),
{
    let ghost t = layout@;
    let parent = match layout.parent(window) {
        Some(parent) => parent,
        None => {
            return Err(WmError::NoParent);
        },
    };
    proof {
        lemma_parent_facts(t, window);
    }
    let place = layout.index(sibling);
    if layout.kind(sibling) == ContainerKind::TilingWindow {
        move_child(layout, window, parent, place);
        sync.queue_container_to_redraw(sibling);
        sync.queue_container_to_redraw(window);
        return Ok(());
    }
    if !direction.is_vertical() && layout.tiling_direction(sibling) == TilingDirection::Vertical {
        move_child(layout, window, parent, place);
        let affected = layout.tiling_children(parent);
        sync.queue_containers_to_redraw(&affected);
        return Ok(());
    }
    proof {
        lemma_descendant_in_direction(t, sibling, direction.inverse(), t.len());
    }
    if let Some(inner) = layout.descendant_in_direction(sibling, direction.inverse()) {
        let target = match layout.parent(inner) {
            Some(target) => target,
            None => {
                return Err(WmError::NoDirectionContainer);
            },
        };
        proof {
            lemma_parent_facts(t, inner);
            lemma_children(t, target);
        }
        let matching = TilingDirection::from_direction(direction) == layout.tiling_direction(
            target,
        );
        let place = layout.index(inner);
        let index: usize = if !direction.is_backward() && matching {
            place
        } else {
            place + 1
        };
        move_child(layout, window, target, index);
        let affected = layout.tiling_children(parent);
        sync.queue_container_to_redraw(target);
        sync.queue_containers_to_redraw(&affected);
    }
    Ok(())
}

/// The place of a window that enters a container from one side.
pub open spec fn entry_place(t: Tree, container: usize, at_start: bool) -> int {
    if at_start {
        0
    } else {
        t[container as int].children.len() as int
    }
}

/// The tree with a workspace laid out along its other axis, all tiles but one window kept as
/// they were in a split of their own.
pub open spec fn workspace_inverted(t: Tree, window: usize, workspace: usize, gaps: Gaps) -> Tree {
    let direction = t[workspace as int].data.tiling_direction;
    let others = without(tiles(t, workspace), window);
    let u = if others.len() > 1 {
        wrapped(with_new_split(t, direction, gaps), t.len() as usize, workspace, others)
    } else {
        t
    };
    with_direction(u, workspace, direction.inverse())
}

/// What moving a tiled window across the axis of its workspace comes to.
pub open spec fn moved_across(
    t: Tree,
    sync: PendingSyncView,
    window: usize,
    direction: Direction,
    gaps: Gaps,
) -> Outcome {
    match workspace_of(t, window) {
        None => (t, sync, Err(WmError::NoWorkspace)),
        Some(workspace) => if without(tiles(t, workspace), window).len() > 1 && t.len()
            >= MAX_CONTAINERS {
            (t, sync, Err(WmError::TooManyContainers))
        } else {
            let u = workspace_inverted(t, window, workspace, gaps);
            let v = child_splits_flattened(
                moved(u, window, workspace, entry_place(u, workspace, direction.is_backward())),
                workspace,
            );
            let count = tiles(v, workspace).len();
            let x = if count > 0 {
                resized(v, window, (WHOLE as int) / (count as int))
            } else {
                v
            };
            (x, sync.with_redraws(tiles(x, workspace)), Ok(()))
        },
    }
}

fn invert_direction(layout: &mut Layout, window: usize, workspace: usize, gaps: Gaps)
    requires
        old(layout).wf(),
        valid(old(layout)@, window),
        valid(old(layout)@, workspace),
        kind(old(layout)@, workspace) == ContainerKind::Workspace,
        kind(old(layout)@, window) == ContainerKind::TilingWindow,
        without(tiles(old(layout)@, workspace), window).len() > 1 ==> old(layout)@.len()
            < MAX_CONTAINERS,
    ensures
        final(layout)@ == workspace_inverted(old(layout)@, window, workspace, gaps),
        final(layout).wf(),
        keeps_windows(old(layout)@, final(layout)@),
{
    let ghost t = layout@;
    let direction = layout.tiling_direction(workspace);
    let all = layout.tiling_children(workspace);
    let others = remove_item(&all, window);
    proof {
        lemma_tiles(t, workspace);
        lemma_without(tiles(t, workspace), window);
    }
    if others.len() > 1 {
        let split = new_split(layout, direction, gaps);
        let ghost t1 = layout@;
        proof {
            lemma_new_split(t, direction, gaps, workspace);
            assert(are_tiles_of(t1, others@, workspace)) by {
                assert forall|k: int| 0 <= k < others@.len() implies tiles(
                    t1,
                    workspace,
                ).contains(#[trigger] others@[k]) by {
                    assert(others@.contains(others@[k]));
                }
            }
            wrapping_keeps_windows(t1, split, workspace, others@);
        }
        layout.wrap_in_split_container(split, workspace, &others);
        proof {
            lemma_keeps_windows_twice(t, t1, layout@);
        }
    }
    let ghost u = layout@;
    layout.set_tiling_direction(workspace, direction.inverse());
    proof {
        assert forall|i: int| 0 <= i < u.len() implies share_ok(
            #[trigger] layout@[i].data.tiling_size as int,
        ) by {
            assert(share_ok(u[i].data.tiling_size as int));
        }
        lemma_same_links_wf(u, layout@);
        lemma_same_links_keeps_windows(u, layout@);
        lemma_keeps_windows_twice(t, u, layout@);
    }
}

#[verifier::spinoff_prover]
pub(crate) fn invert_workspace_tiling_direction(
    layout: &mut Layout,
    sync: &mut PendingSync,
    window: usize,
    direction: Direction,
    gaps: Gaps,
) -> (res: Result<(), WmError>)
    requires
        old(layout).wf(),
        valid(old(layout)@, window),
        kind(old(layout)@, window) == ContainerKind::TilingWindow,
        old(layout)@[window as int].parent is Some,
    ensures
        (final(layout)@, final(sync)@, res) == moved_across(
            old(layout)@,
            old(sync)@,
            window,
            direction,
            gaps,
        ),
        final(layout).wf(),
        keeps_windows(old(layout)@, final(layout)@),
{
    let ghost t = layout@;
    let workspace = match layout.workspace(window) {
        Some(workspace) => workspace,
        None => {
            return Err(WmError::NoWorkspace);
        },
    };
    let all = layout.tiling_children(workspace);
    let others = remove_item(&all, window);
    if others.len() > 1 && layout.len() as u64 >= MAX_CONTAINERS {
        return Err(WmError::TooManyContainers);
    }
    invert_direction(layout, window, workspace, gaps);
    let ghost u = layout@;
    proof {
        assert(u[window as int].data.kind == t[window as int].data.kind);
        assert(u[workspace as int].data.kind == t[workspace as int].data.kind);
    }
    let index: usize = if direction.is_backward() {
        0
    } else {
        layout.child_count(workspace)
    };
    move_child(layout, window, workspace, index);
    let ghost m = layout@;
    layout.flatten_child_split_containers(workspace);
    let ghost v = layout@;
    let count: usize = layout.tiling_children(workspace).len();
    proof {
        lemma_tiles(v, workspace);
        lemma_keeps_windows_twice(t, u, m);
        lemma_keeps_windows_twice(t, m, v);
    }
    if count > 0 {
        let share: i64 = WHOLE / count as i64;
        layout.resize_tile(window, share);
        proof {
            lemma_same_links_keeps_windows(v, layout@);
            lemma_keeps_windows_twice(t, v, layout@);
        }
    }
    let affected = layout.tiling_children(workspace);
    sync.queue_containers_to_redraw(&affected);
    Ok(())
}

/// The tree after the splits under some containers have been cleaned up, those that are still
/// in the tree.
pub open spec fn all_cleaned_up(t: Tree, containers: Seq<usize>) -> Tree
    decreases containers.len(),
{
    if containers.len() == 0 {
        t
    } else {
        let u = all_cleaned_up(t, containers.drop_last());
        if u[containers.last() as int].parent is Some {
            child_splits_flattened(u, containers.last())
        } else {
            u
        }
    }
}

/// What moving a window out of a column to the edge of its workspace comes to.
pub open spec fn moved_to_vertical_edge(
    t: Tree,
    sync: PendingSyncView,
    window: usize,
    direction: Direction,
    gaps: Gaps,
) -> Outcome {
    match workspace_of(t, window) {
        None => (t, sync, Err(WmError::NoWorkspace)),
        Some(workspace) => if t[workspace as int].data.tiling_direction
            == TilingDirection::Horizontal {
            moved_across(t, sync, window, direction, gaps)
        } else {
            let u = all_cleaned_up(
                moved(t, window, workspace, entry_place(t, workspace, direction == Direction::Up)),
                ancestors(t, window),
            );
            (u, sync.with_redraws(tiles(u, workspace)), Ok(()))
        },
    }
}

#[verifier::spinoff_prover]
pub(crate) fn move_to_vertical_workspace_edge(
    layout: &mut Layout,
    sync: &mut PendingSync,
    window: usize,
    direction: Direction,
    gaps: Gaps,
) -> (res: Result<(), WmError>)
    requires
        old(layout).wf(),
        valid(old(layout)@, window),
        kind(old(layout)@, window) == ContainerKind::TilingWindow,
        old(layout)@[window as int].parent is Some,
    ensures
        (final(layout)@, final(sync)@, res) == moved_to_vertical_edge(
            old(layout)@,
            old(sync)@,
            window,
            direction,
            gaps,
        ),
        final(layout).wf(),
        keeps_windows(old(layout)@, final(layout)@),
{
    let ghost t = layout@;
    let workspace = match layout.workspace(window) {
        Some(workspace) => workspace,
        None => {
            return Err(WmError::NoWorkspace);
        },
    };
    if layout.tiling_direction(workspace) == TilingDirection::Horizontal {
        return invert_workspace_tiling_direction(layout, sync, window, direction, gaps);
    }
    let above = layout.ancestors(window);
    let index: usize = if direction == Direction::Up {
        0
    } else {
        layout.child_count(workspace)
    };
    move_child(layout, window, workspace, index);
    let ghost m = layout@;
    assert(above@.take(0) =~= Seq::<usize>::empty());
    for i in 0..above.len()
        invariant
            layout.wf(),
            keeps_windows(t, layout@),
            layout@.len() == t.len(),
            above@ == ancestors(t, window),
            forall|k: int| 0 <= k < above.len() ==> valid(t, #[trigger] above[k]),
            layout@ == all_cleaned_up(m, above@.take(i as int)),
    {
        assert(valid(t, above[i as int]));
        assert(above@.take(i + 1).drop_last() =~= above@.take(i as int));
        let ghost before = layout@;
        if layout.parent(above[i]).is_some() {
            layout.flatten_child_split_containers(above[i]);
            proof {
                lemma_keeps_windows_twice(t, before, layout@);
            }
        }
    }
    assert(above@.take(above.len() as int) =~= above@);
    let affected = layout.tiling_children(workspace);
    sync.queue_containers_to_redraw(&affected);
    Ok(())
}

/// The tile that a window is stacked with: the next one, or else the one before.
pub open spec fn stacking_neighbor(t: Tree, window: usize) -> Option<usize> {
    match sibling_in_direction(t, window, Direction::Right) {
        Some(neighbor) => Some(neighbor),
        None => sibling_in_direction(t, window, Direction::Left),
    }
}

/// A window and its neighbor from top to bottom.
pub open spec fn stack_order(window: usize, neighbor: usize, direction: Direction) -> Seq<usize> {
    if direction == Direction::Up {
        seq![window, neighbor]
    } else {
        seq![neighbor, window]
    }
}

/// The tree after a window and its neighbor have been stacked in a new column.
#[verifier::opaque]
pub open spec fn stacked(
    t: Tree,
    window: usize,
    neighbor: usize,
    direction: Direction,
    gaps: Gaps,
) -> Tree {
    let split = t.len() as usize;
    let parent = t[window as int].parent->0;
    let wrapped_up = wrapped(
        with_new_split(t, TilingDirection::Vertical, gaps),
        split,
        parent,
        stack_order(window, neighbor, direction),
    );
    let halved = resized(unstack_remembered(wrapped_up, split), window, (WHOLE as int) / 2);
    moved(halved, window, split, position(halved[split as int].children, window))
}

/// What stacking a window with its neighbor comes to.
pub open spec fn stacked_with_neighbor(
    t: Tree,
    sync: PendingSyncView,
    window: usize,
    direction: Direction,
    gaps: Gaps,
) -> Outcome {
    match stacking_neighbor(t, window) {
        None => (t, sync, Err(WmError::NoNeighbor)),
        Some(neighbor) => if t.len() >= MAX_CONTAINERS {
            (t, sync, Err(WmError::TooManyContainers))
        } else {
            let u = stacked(t, window, neighbor, direction, gaps);
            (u, sync.with_redraws(tiles(u, t[window as int].parent->0)), Ok(()))
        },
    }
}

#[verifier::spinoff_prover]
#[verifier::rlimit(40)]
pub(crate) fn stack_with_neighbor(
    layout: &mut Layout,
    sync: &mut PendingSync,
    window: usize,
    direction: Direction,
    gaps: Gaps,
) -> (res: Result<(), WmError>)
    requires
        old(layout).wf(),
        valid(old(layout)@, window),
        kind(old(layout)@, window) == ContainerKind::TilingWindow,
        old(layout)@[window as int].parent is Some,
    ensures
        (final(layout)@, final(sync)@, res) == stacked_with_neighbor(
            old(layout)@,
            old(sync)@,
            window,
            direction,
            gaps,
        ),
        final(layout).wf(),
        keeps_windows(old(layout)@, final(layout)@),
{
    proof {
        reveal(stacked);
    }
    let ghost t = layout@;
    let parent = match layout.parent(window) {
        Some(parent) => parent,
        None => {
            return Err(WmError::NoParent);
        },
    };
    proof {
        lemma_parent_facts(t, window);
        lemma_sibling_in_direction(t, window, Direction::Right);
        lemma_sibling_in_direction(t, window, Direction::Left);
    }
    let neighbor = match layout.tiling_sibling_in_direction(window, Direction::Right) {
        Some(neighbor) => neighbor,
        None => match layout.tiling_sibling_in_direction(window, Direction::Left) {
            Some(neighbor) => neighbor,
            None => {
                return Err(WmError::NoNeighbor);
            },
        },
    };
    if layout.len() as u64 >= MAX_CONTAINERS {
        return Err(WmError::TooManyContainers);
    }
    let mut ids: Vec<usize> = Vec::new();
    if direction == Direction::Up {
        ids.push(window);
        ids.push(neighbor);
    } else {
        ids.push(neighbor);
        ids.push(window);
    }
    assert(ids@ =~= stack_order(window, neighbor, direction));
    let split = new_split(layout, TilingDirection::Vertical, gaps);
    let ghost t1 = layout@;
    proof {
        lemma_new_split(t, TilingDirection::Vertical, gaps, parent);
        lemma_parent_facts(t, neighbor);
        lemma_tiles_in(t, t[parent as int].children);
        assert(tiles(t1, parent).contains(window));
        assert(tiles(t1, parent).contains(neighbor));
        assert(are_tiles_of(t1, ids@, parent));
        wrapping_keeps_windows(t1, split, parent, ids@);
    }
    layout.wrap_in_split_container(split, parent, &ids);
    let ghost t2 = layout@;
    proof {
        crate::tree_laws::lemma_wrapped(t1, split, parent, ids@);
        lemma_keeps_windows_twice(t, t1, t2);
        assert(ids@.contains(window)) by {
            assert(ids@[0] == window || ids@[1] == window);
        }
        assert(t2[window as int].parent == Some(split));
    }
    layout.remember_unstack_shares(split);
    let ghost t3 = layout@;
    layout.resize_tile(window, WHOLE / 2);
    let ghost t4 = layout@;
    proof {
        lemma_same_links_keeps_windows(t2, t3);
        lemma_same_links_keeps_windows(t3, t4);
        lemma_keeps_windows_twice(t, t2, t3);
        lemma_keeps_windows_twice(t, t3, t4);
        assert(t3[window as int].parent == t2[window as int].parent);
        assert(t4[window as int].parent == t3[window as int].parent);
        assert(t3[split as int].data.kind == t2[split as int].data.kind);
        assert(t4[split as int].data.kind == t3[split as int].data.kind);
    }
    let place = layout.index(window);
    move_child(layout, window, split, place);
    proof {
        lemma_keeps_windows_twice(t, t4, layout@);
    }
    let affected = layout.tiling_children(parent);
    sync.queue_containers_to_redraw(&affected);
    Ok(())
}

/// The first of some containers that stands right under another one.
pub open spec fn first_under(t: Tree, containers: Seq<usize>, parent: usize) -> Option<usize>
    decreases containers.len(),
{
    if containers.len() == 0 {
        None
    } else {
        match first_under(t, containers.drop_last(), parent) {
            Some(found) => Some(found),
            None => if t[containers.last() as int].parent == Some(parent) {
                Some(containers.last())
            } else {
                None
            },
        }
    }
}

/// The share that a window takes with it when it leaves the stack that it was put in: the
/// share of the row that it had before.
pub open spec fn unstacked_share(
    t: Tree,
    window: usize,
    column: usize,
    target: usize,
) -> Option<int> {
    if kind(t, column) == ContainerKind::Split && t[window as int].parent == Some(column) && tiles(
        t,
        column,
    ).len() > 1 && t[column as int].data.tiling_direction
        != t[target as int].data.tiling_direction {
        match unstack_fraction(t, column, window) {
            Some(fraction) => Some((share_of(t, column) * fraction) / (WHOLE as int)),
            None => None,
        }
    } else {
        None
    }
}

/// The shares of a row once a window has left a column in it.
pub open spec fn row_restored(t: Tree, ids: Seq<usize>, column: usize, share: int) -> Seq<i64> {
    Seq::new(
        ids.len(),
        |i: int|
            if ids[i] == column {
                saturated(share_of(t, column) - share)
            } else {
                share_of(t, ids[i])
            },
    )
}

/// The tree after a window has been moved beside `column`, a container it stood in.
#[verifier::opaque]
pub open spec fn moved_beside(
    t: Tree,
    window: usize,
    column: usize,
    target: usize,
    direction: Direction,
) -> Tree {
    let place = position(t[target as int].children, column);
    let u = moved(
        t,
        window,
        target,
        if direction.is_backward() {
            place
        } else {
            place + 1
        },
    );
    match unstacked_share(t, window, column, target) {
        Some(share) => with_share(
            with_shares(u, tiles(t, target), row_restored(t, tiles(t, target), column, share)),
            window,
            saturated(share),
        ),
        None => u,
    }
}

/// What moving a window into a container above it comes to.
pub open spec fn moved_into_ancestor(
    t: Tree,
    sync: PendingSyncView,
    window: usize,
    target: usize,
    direction: Direction,
) -> Outcome {
    match first_under(t, ancestors(t, window), target) {
        None => (t, sync, Err(WmError::NoAncestor)),
        Some(column) => {
            let u = moved_beside(t, window, column, target, direction);
            (u, sync.with_redraws(tiles(u, target)), Ok(()))
        },
    }
}

fn find_under(layout: &Layout, containers: &Vec<usize>, parent: usize) -> (res: Option<usize>)
    requires
        forall|k: int| 0 <= k < containers.len() ==> valid(layout@, #[trigger] containers[k]),
    ensures
        res == first_under(layout@, containers@, parent),
        res matches Some(found) ==> valid(layout@, found) && layout@[found as int].parent == Some(
            parent,
        ),
{
    let mut res: Option<usize> = None;
    assert(containers@.take(0) =~= Seq::<usize>::empty());
    for i in 0..containers.len()
        invariant
            forall|k: int| 0 <= k < containers.len() ==> valid(layout@, #[trigger] containers[k]),
            res == first_under(layout@, containers@.take(i as int), parent),
            res matches Some(found) ==> valid(layout@, found) && layout@[found as int].parent
                == Some(parent),
    {
        assert(valid(layout@, containers[i as int]));
        assert(containers@.take(i + 1).drop_last() =~= containers@.take(i as int));
        if res.is_none() {
            if let Some(p) = layout.parent(containers[i]) {
                if p == parent {
                    res = Some(containers[i]);
                }
            }
        }
    }
    assert(containers@.take(containers.len() as int) =~= containers@);
    res
}

fn share_when_unstacked(
    layout: &Layout,
    window: usize,
    column: usize,
    target: usize,
) -> (res: Option<i128>)
    requires
        layout.wf(),
        valid(layout@, window),
        valid(layout@, column),
        valid(layout@, target),
    ensures
        match unstacked_share(layout@, window, column, target) {
            Some(share) => res matches Some(found) && found == share,
            None => res is None,
        },
        res matches Some(found) ==> -0x1000_0000_0000_0000_0000_0000_0000 <= found
            <= 0x1000_0000_0000_0000_0000_0000_0000,
{
    if layout.kind(column) != ContainerKind::Split {
        return None;
    }
    match layout.parent(window) {
        Some(p) => {
            if p != column {
                return None;
            }
        },
        None => {
            return None;
        },
    }
    if layout.tiling_children(column).len() <= 1 || layout.tiling_direction(column)
        == layout.tiling_direction(target) {
        return None;
    }
    match layout.unstack_fraction(column, window) {
        Some(fraction) => {
            let share = layout.tiling_size(column);
            assert(share_ok(layout@[column as int].data.tiling_size as int));
            assert(-0x4_0000_0000_0000_0000_0000_0000_0000 <= share * fraction
                <= 0x4_0000_0000_0000_0000_0000_0000_0000) by (nonlinear_arith)
                requires
                    -1099511627776 <= share <= 1099511627776,
                    -0x8000_0000_0000_0000 <= fraction <= 0x7fff_ffff_ffff_ffff,
            ;
            Some(floor_div(share as i128 * fraction as i128, WHOLE as i128))
        },
        None => None,
    }
}

#[verifier::spinoff_prover]
fn move_beside(
    layout: &mut Layout,
    window: usize,
    column: usize,
    target: usize,
    direction: Direction,
)
    requires
        old(layout).wf(),
        valid(old(layout)@, window),
        valid(old(layout)@, column),
        valid(old(layout)@, target),
        kind(old(layout)@, window) == ContainerKind::TilingWindow,
        old(layout)@[window as int].parent is Some,
        old(layout)@[column as int].parent == Some(target),
        kind(old(layout)@, target).is_direction(),
    ensures
        final(layout)@ == moved_beside(old(layout)@, window, column, target, direction),
        final(layout).wf(),
        keeps_windows(old(layout)@, final(layout)@),
{
    proof {
        reveal(moved_beside);
    }
    let ghost t = layout@;
    proof {
        lemma_parent_facts(t, column);
        lemma_tiles(t, target);
        lemma_children(t, target);
    }
    let place = layout.index(column);
    let index: usize = if direction.is_backward() {
        place
    } else {
        place + 1
    };
    let unstacked = share_when_unstacked(layout, window, column, target);
    let ids = layout.tiling_children(target);
    let mut restored: Vec<i64> = Vec::new();
    if let Some(share) = unstacked {
        for i in 0..ids.len()
            invariant
                layout.wf(),
                t == layout@,
                ids@ == tiles(t, target),
                forall|k: int| 0 <= k < ids.len() ==> valid(t, #[trigger] ids[k]),
                -0x1000_0000_0000_0000_0000_0000_0000 <= share
                    <= 0x1000_0000_0000_0000_0000_0000_0000,
                restored.len() == i,
                forall|k: int| 0 <= k < i ==> share_ok(#[trigger] restored[k] as int),
                forall|k: int|
                    0 <= k < i ==> #[trigger] restored[k] == row_restored(
                        t,
                        ids@,
                        column,
                        share as int,
                    )[k],
        {
            assert(valid(t, ids[i as int]));
            assert(share_ok(t[ids[i as int] as int].data.tiling_size as int));
            let size = layout.tiling_size(ids[i]);
            if ids[i] == column {
                restored.push(saturate(size as i128 - share));
            } else {
                restored.push(size);
            }
        }
        assert(restored@ =~= row_restored(t, ids@, column, share as int));
    }
    move_child(layout, window, target, index);
    if let Some(share) = unstacked {
        let ghost u = layout@;
        assert forall|k: int| 0 <= k < ids.len() implies valid(u, #[trigger] ids[k]) by {
            assert(valid(t, tiles(t, target)[k]));
        }
        layout.set_shares(&ids, &restored);
        proof {
            lemma_with_shares(u, ids@, restored@);
        }
        let ghost v = layout@;
        layout.set_tiling_size(window, saturate(share));
        proof {
            assert forall|i: int| 0 <= i < u.len() implies share_ok(
                #[trigger] layout@[i].data.tiling_size as int,
            ) by {
                assert(share_ok(u[i].data.tiling_size as int));
                assert(share_ok(v[i].data.tiling_size as int));
            }
            lemma_same_links_wf(u, layout@);
            lemma_same_links_keeps_windows(u, layout@);
            lemma_keeps_windows_twice(t, u, layout@);
        }
    }
}

pub(crate) fn insert_into_ancestor(
    layout: &mut Layout,
    sync: &mut PendingSync,
    window: usize,
    target: usize,
    direction: Direction,
) -> (res: Result<(), WmError>)
    requires
        old(layout).wf(),
        valid(old(layout)@, window),
        valid(old(layout)@, target),
        kind(old(layout)@, window) == ContainerKind::TilingWindow,
        old(layout)@[window as int].parent is Some,
        kind(old(layout)@, target).is_direction(),
    ensures
        (final(layout)@, final(sync)@, res) == moved_into_ancestor(
            old(layout)@,
            old(sync)@,
            window,
            target,
            direction,
        ),
        final(layout).wf(),
        keeps_windows(old(layout)@, final(layout)@),
{
    let above = layout.ancestors(window);
    let column = match find_under(layout, &above, target) {
        Some(column) => column,
        None => {
            return Err(WmError::NoAncestor);
        },
    };
    move_beside(layout, window, column, target, direction);
    let affected = layout.tiling_children(target);
    sync.queue_containers_to_redraw(&affected);
    Ok(())
}

/// The first of some containers that lays out tiles along an axis.
pub open spec fn first_along(
    t: Tree,
    containers: Seq<usize>,
    axis: TilingDirection,
) -> Option<usize>
    decreases containers.len(),
{
    if containers.len() == 0 {
        None
    } else {
        match first_along(t, containers.drop_last(), axis) {
            Some(found) => Some(found),
            None => if kind(t, containers.last()).is_direction()
                && t[containers.last() as int].data.tiling_direction == axis {
                Some(containers.last())
            } else {
                None
            },
        }
    }
}

pub(crate) fn find_along(
    layout: &Layout,
    containers: &Vec<usize>,
    axis: TilingDirection,
) -> (res: Option<usize>)
    requires
        forall|k: int| 0 <= k < containers.len() ==> valid(layout@, #[trigger] containers[k]),
    ensures
        res == first_along(layout@, containers@, axis),
        res matches Some(found) ==> valid(layout@, found) && kind(layout@, found).is_direction(),
{
    let mut res: Option<usize> = None;
    assert(containers@.take(0) =~= Seq::<usize>::empty());
    for i in 0..containers.len()
        invariant
            forall|k: int| 0 <= k < containers.len() ==> valid(layout@, #[trigger] containers[k]),
            res == first_along(layout@, containers@.take(i as int), axis),
            res matches Some(found) ==> valid(layout@, found) && kind(
                layout@,
                found,
            ).is_direction(),
    {
        assert(valid(layout@, containers[i as int]));
        assert(containers@.take(i + 1).drop_last() =~= containers@.take(i as int));
        if res.is_none() && layout.is_direction(containers[i]) && layout.tiling_direction(
            containers[i],
        ) == axis {
            res = Some(containers[i]);
        }
    }
    assert(containers@.take(containers.len() as int) =~= containers@);
    res
}

} // verus!
