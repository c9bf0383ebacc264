//! A window that leaves a split ends in the same place, whichever way it moved inside it before.

use vstd::prelude::*;

use crate::frame_laws::{
    lemma_flattened_only, lemma_same_twice, lemma_shares_only, moving_changes_shares_only,
    same_but_shares, wrapping_changes_shares_only,
};
use crate::geometry::{Direction, TilingDirection};
use crate::layout::lemma_push_wf;
use crate::lists::{lemma_position_is, lemma_without, lemma_without_at, position, shifted, without};
use crate::move_command::{
    moved_tiling, ready_to_move, stepped, tiling_step, window_count, MoveContext, TilingStep,
};
use crate::pending_sync::PendingSyncView;
use crate::placement::{rect_fuel, rect_of, tile_length};
use crate::shares::{clamped_target, share_ok, spread, MAX_CONTAINERS, WHOLE};
use crate::split_ops::{
    child_splits_flattened, child_splits_flattened_of, is_redundant, splits_normalized,
    unstack_fraction,
};
use crate::stack_laws::{lemma_all_tiles, lemma_first_under};
use crate::traversal::{
    ancestors, ancestors_fuel, descend, descendants, enclosing_fuel, of_kind, workspace_of,
};
use crate::tree::{
    attached, detached, flattened, is_only_child_of_split, is_tile, kind, linked, moved, resized,
    share_of, shares_of, tile_siblings, tiles, valid, wf, with_direction, with_share, wrapped,
    ContainerKind, NodeData, Tree,
};
use crate::tree_laws::{
    are_tiles_of, attaching_keeps_tree, cut_out, flattening_keeps_tree, focusing_keeps_tree,
    lemma_children, lemma_flattened, lemma_moved_within, lemma_parent_facts, lemma_same_links_wf,
    lemma_tile_siblings, lemma_tiles_same_kinds, lemma_with_shares, lemma_wrapped,
    linking_keeps_tree, moving_keeps_tree, resizing_keeps_links, same_links, unlinking_keeps_tree,
    wrapping_keeps_tree,
};
use crate::trip_laws::{
    lemma_column_in_row, lemma_first_along, lemma_kinds, lemma_moved_links, lemma_none_redundant,
    lemma_of_kind_some, lemma_one_redundant, lemma_steps_out,
};
use crate::window_laws::lemma_window_childless;
use crate::window_size::Outcome;
use crate::window_move::{
    entry_place, first_along, lemma_new_split, moved_across, moved_beside, moved_to_sibling,
    moved_to_vertical_edge, split_data, with_new_split, workspace_inverted,
};

verus! {

/// Two containers in the order in which they stand when one comes first at the side that a
/// direction points to.
pub open spec fn in_order(near: usize, far: usize, direction: Direction) -> Seq<usize> {
    if direction.is_backward() {
        seq![near, far]
    } else {
        seq![far, near]
    }
}

/// Whether a workspace holds just a split with two windows across its axis and another window, the
/// split at the side that a direction points to.
pub open spec fn nested(
    t: Tree,
    workspace: usize,
    inner: usize,
    windows: Seq<usize>,
    other: usize,
    last: Direction,
) -> bool {
    let axis = TilingDirection::from_direction(last);
    &&& wf(t)
    &&& valid(t, workspace)
    &&& kind(t, workspace) == ContainerKind::Workspace
    &&& t[workspace as int].data.tiling_direction == axis
    &&& t[workspace as int].children == in_order(inner, other, last)
    &&& kind(t, inner) == ContainerKind::Split
    &&& t[inner as int].data.tiling_direction != axis
    &&& t[inner as int].children == windows
    &&& t[inner as int].unstack.len() == 0
    &&& windows.len() == 2
    &&& kind(t, windows[0]) == ContainerKind::TilingWindow
    &&& kind(t, windows[1]) == ContainerKind::TilingWindow
    &&& kind(t, other) == ContainerKind::TilingWindow
}

proof fn lemma_nested(
    t: Tree,
    workspace: usize,
    inner: usize,
    windows: Seq<usize>,
    other: usize,
    last: Direction,
)
    requires
        nested(t, workspace, inner, windows, other, last),
    ensures
        valid(t, inner) && valid(t, other) && valid(t, windows[0]) && valid(t, windows[1]),
        t[inner as int].parent == Some(workspace),
        t[other as int].parent == Some(workspace),
        t[windows[0] as int].parent == Some(inner),
        t[windows[1] as int].parent == Some(inner),
        windows[0] != windows[1],
        windows[0] != other && windows[1] != other,
        t[windows[0] as int].children.len() == 0,
        t[windows[1] as int].children.len() == 0,
        t[other as int].children.len() == 0,
        inner != workspace && inner != other,
        t.len() >= 4,
{
    let all = t[workspace as int].children;
    lemma_children(t, workspace);
    assert(all[0] == inner && all[1] == other || all[1] == inner && all[0] == other);
    assert(valid(t, t[workspace as int].children[0]) && valid(t, t[workspace as int].children[1]));
    assert(t[t[workspace as int].children[0] as int].parent == Some(workspace));
    lemma_children(t, inner);
    assert(valid(t, t[inner as int].children[0]) && valid(t, t[inner as int].children[1]));
    assert(t[t[inner as int].children[0] as int].parent == Some(inner));
    assert(t[inner as int].children.no_duplicates());
    lemma_window_childless(t, windows[0]);
    lemma_window_childless(t, windows[1]);
    lemma_window_childless(t, other);
    if t.len() < 4 {
        assert(false);
    }
}

/// What stands in two containers, at any depth.
proof fn lemma_descend_pair(t: Tree, a: usize, b: usize, fuel: nat)
    requires
        fuel > 0,
    ensures
        descend(t, seq![a, b], fuel) == (seq![a] + descend(
            t,
            t[a as int].children,
            (fuel - 1) as nat,
        )).push(b) + descend(t, t[b as int].children, (fuel - 1) as nat),
{
    let pair = seq![a, b];
    assert(pair.drop_last() =~= seq![a]);
    assert(seq![a].drop_last() =~= Seq::<usize>::empty());
    assert(descend(t, Seq::<usize>::empty(), fuel) =~= Seq::<usize>::empty());
    assert(descend(t, seq![a], fuel) =~= Seq::<usize>::empty().push(a) + descend(
        t,
        t[a as int].children,
        (fuel - 1) as nat,
    ));
    assert(Seq::<usize>::empty().push(a) =~= seq![a]);
}

proof fn lemma_descend_none(t: Tree, id: usize, fuel: nat)
    requires
        t[id as int].children.len() == 0,
    ensures
        descend(t, t[id as int].children, fuel) == Seq::<usize>::empty(),
{
}

/// What stands in two windows' container is those two.
pub proof fn lemma_descend_windows(t: Tree, a: usize, b: usize, fuel: nat)
    requires
        fuel > 0,
        t[a as int].children.len() == 0,
        t[b as int].children.len() == 0,
    ensures
        descend(t, seq![a, b], fuel) == seq![a, b],
{
    lemma_descend_pair(t, a, b, fuel);
    lemma_descend_none(t, a, (fuel - 1) as nat);
    lemma_descend_none(t, b, (fuel - 1) as nat);
    assert(descend(t, seq![a, b], fuel) =~= seq![a, b]);
}

/// The containers of a kind are among all, and fewer where one is of another kind.
proof fn lemma_of_kind_fewer(t: Tree, ids: Seq<usize>, wanted: ContainerKind, k: int)
    requires
        0 <= k < ids.len(),
        kind(t, ids[k]) != wanted,
    ensures
        of_kind(t, ids, wanted).len() < ids.len(),
    decreases ids.len(),
{
    if k < ids.len() - 1 {
        assert(ids.drop_last()[k] == ids[k]);
        lemma_of_kind_fewer(t, ids.drop_last(), wanted, k);
    } else {
        lemma_of_kind_some(t, ids.drop_last(), wanted);
    }
}

/// A layout like that has no redundant splits, and only three windows.
#[verifier::spinoff_prover]
#[verifier::rlimit(40)]
proof fn lemma_nested_ready(
    t: Tree,
    workspace: usize,
    inner: usize,
    windows: Seq<usize>,
    other: usize,
    last: Direction,
    window: usize,
)
    requires
        nested(t, workspace, inner, windows, other, last),
        window == windows[0] || window == windows[1],
    ensures
        workspace_of(t, window) == Some(workspace),
        ready_to_move(t, window, workspace) == t,
        window_count(t, workspace) <= 3,
{
    lemma_nested(t, workspace, inner, windows, other, last);
    let fuel = t.len();
    let all = descendants(t, workspace);
    assert(windows =~= seq![windows[0], windows[1]]);
    lemma_descend_windows(t, windows[0], windows[1], (fuel - 1) as nat);
    lemma_descend_none(t, other, (fuel - 1) as nat);
    if last.is_backward() {
        lemma_descend_pair(t, inner, other, fuel);
        assert(all =~= seq![inner, windows[0], windows[1], other]);
        lemma_of_kind_fewer(t, all, ContainerKind::TilingWindow, 0);
    } else {
        lemma_descend_pair(t, other, inner, fuel);
        assert(all =~= seq![other, inner, windows[0], windows[1]]);
        lemma_of_kind_fewer(t, all, ContainerKind::TilingWindow, 1);
    }
    let splits = of_kind(t, all, ContainerKind::Split);
    lemma_of_kind_some(t, all, ContainerKind::Split);
    assert forall|k: int| 0 <= k < splits.len() implies !is_redundant(t, #[trigger] splits[k]) by {
        assert(all.contains(splits[k]));
        let j = choose|j: int| 0 <= j < all.len() && all[j] == splits[k];
        assert(splits[k] == inner);
    }
    lemma_none_redundant(t, splits);
    assert(!is_only_child_of_split(t, window));
    assert(enclosing_fuel(t, workspace, ContainerKind::Workspace, (fuel - 2) as nat) == Some(
        workspace,
    ));
    assert(enclosing_fuel(t, inner, ContainerKind::Workspace, (fuel - 1) as nat) == Some(
        workspace,
    ));
}

/// No container above a workspace has an axis.
pub proof fn lemma_above_workspace(t: Tree, id: usize, fuel: nat)
    requires
        wf(t),
        valid(t, id),
        kind(t, id) == ContainerKind::Workspace || kind(t, id) == ContainerKind::Monitor || kind(
            t,
            id,
        ) == ContainerKind::Root,
    ensures
        forall|k: int|
            0 <= k < ancestors_fuel(t, id, fuel).len() ==> !kind(
                t,
                #[trigger] ancestors_fuel(t, id, fuel)[k],
            ).is_direction(),
    decreases fuel,
{
    if fuel > 0 && t[id as int].parent is Some {
        let p = t[id as int].parent->0;
        lemma_parent_facts(t, id);
        lemma_above_workspace(t, p, (fuel - 1) as nat);
        let rest = ancestors_fuel(t, p, (fuel - 1) as nat);
        assert forall|k: int| 0 <= k < ancestors_fuel(t, id, fuel).len() implies !kind(
            t,
            #[trigger] ancestors_fuel(t, id, fuel)[k],
        ).is_direction() by {
            if k > 0 {
                assert(ancestors_fuel(t, id, fuel)[k] == rest[k - 1]);
            }
        }
    }
}

pub proof fn lemma_none_along(t: Tree, containers: Seq<usize>, axis: TilingDirection)
    requires
        forall|k: int|
            0 <= k < containers.len() ==> !kind(t, #[trigger] containers[k]).is_direction()
                || t[containers[k] as int].data.tiling_direction != axis,
    ensures
        first_along(t, containers, axis) is None,
    decreases containers.len(),
{
    if containers.len() > 0 {
        let front = containers.drop_last();
        assert forall|k: int| 0 <= k < front.len() implies !kind(
            t,
            #[trigger] front[k],
        ).is_direction() || t[front[k] as int].data.tiling_direction != axis by {
            assert(front[k] == containers[k]);
        }
        lemma_none_along(t, front, axis);
        let end = containers[containers.len() - 1];
        assert(!kind(t, end).is_direction() || t[end as int].data.tiling_direction != axis);
    }
}

/// No container above one right under a workspace has the other axis.
proof fn lemma_none_across(t: Tree, id: usize, workspace: usize, axis: TilingDirection)
    requires
        wf(t),
        valid(t, workspace),
        kind(t, workspace) == ContainerKind::Workspace,
        t[id as int].parent == Some(workspace),
        t[workspace as int].data.tiling_direction != axis,
        t.len() > 0,
    ensures
        first_along(t, ancestors(t, id), axis) is None,
{
    let rest = ancestors_fuel(t, workspace, (t.len() - 1) as nat);
    lemma_above_workspace(t, workspace, (t.len() - 1) as nat);
    let all = ancestors(t, id);
    assert(all =~= seq![workspace] + rest);
    assert forall|k: int| 0 <= k < all.len() implies !kind(t, #[trigger] all[k]).is_direction()
        || t[all[k] as int].data.tiling_direction != axis by {
        if k > 0 {
            assert(all[k] == rest[k - 1]);
        }
    }
    lemma_none_along(t, all, axis);
}

/// Whether a window is the first or the last of three tiles of a workspace and has a third of it.
pub open spec fn at_edge(t: Tree, workspace: usize, window: usize, last: Direction) -> bool {
    let all = t[workspace as int].children;
    &&& wf(t)
    &&& valid(t, workspace)
    &&& kind(t, workspace) == ContainerKind::Workspace
    &&& t[workspace as int].data.tiling_direction == TilingDirection::from_direction(last)
    &&& all.len() == 3
    &&& tiles(t, workspace) == all
    &&& all[if last.is_backward() {
        0
    } else {
        2int
    }] == window
    &&& kind(t, window) == ContainerKind::TilingWindow
    &&& t[window as int].parent == Some(workspace)
    &&& share_of(t, window) == WHOLE / 3
}

/// Whether a window has its gaps and its workspace its area still.
pub open spec fn same_room(t: Tree, u: Tree, workspace: usize, window: usize) -> bool {
    &&& u[window as int].data.inner_gaps == t[window as int].data.inner_gaps
    &&& u[workspace as int].data.rect == t[workspace as int].data.rect
}

proof fn lemma_same_room(t: Tree, u: Tree, workspace: usize, window: usize)
    requires
        same_but_shares(t, u),
        valid(t, workspace),
        valid(t, window),
    ensures
        same_room(t, u, workspace, window),
{
    assert((NodeData {
        tiling_size: t[workspace as int].data.tiling_size,
        ..u[workspace as int].data
    }) == t[workspace as int].data);
    assert((NodeData {
        tiling_size: t[window as int].data.tiling_size,
        ..u[window as int].data
    }) == t[window as int].data);
}

/// What resizing a tile leaves alone, and the third that a tile with two siblings can have.
pub proof fn lemma_resized_third(t: Tree, id: usize, target: int)
    requires
        wf(t),
        valid(t, id),
    ensures
        ({
            let u = resized(t, id, target);
            &&& wf(u)
            &&& same_links(t, u)
            &&& same_but_shares(t, u)
            &&& forall|i: int| 0 <= i < t.len() ==> (#[trigger] u[i]).unstack == t[i].unstack
            &&& tile_siblings(t, id).len() == 2 && target == WHOLE as int / 3 ==> share_of(u, id)
                == WHOLE / 3
        }),
{
    let u = resized(t, id, target);
    let siblings = tile_siblings(t, id);
    resizing_keeps_links(t, id, target);
    lemma_tile_siblings(t, id);
    if siblings.len() > 0 {
        let share = clamped_target(target, siblings.len());
        let s = with_share(t, id, share as i64);
        let after = spread(shares_of(t, siblings), share - share_of(t, id));
        assert forall|k: int| 0 <= k < siblings.len() implies valid(s, #[trigger] siblings[k]) by {
            assert(valid(t, siblings[k]));
        }
        lemma_with_shares(s, siblings, after);
        lemma_shares_only(s, siblings, after);
        lemma_same_twice(t, s, u);
        assert(u[id as int] == s[id as int]);
    }
}

/// The third that a window gets beside two others.
#[verifier::spinoff_prover]
proof fn lemma_attached_third(d: Tree, id: usize, parent: usize, index: int)
    requires
        wf(d),
        valid(d, id),
        valid(d, parent),
        id != parent,
        kind(d, id) == ContainerKind::TilingWindow,
        d[id as int].parent is None,
        d[id as int].children.len() == 0,
        kind(d, parent).is_direction(),
        0 <= index <= d[parent as int].children.len(),
    ensures
        ({
            let a = attached(d, id, parent, index);
            tile_siblings(a, id).len() == 2 ==> share_of(a, id) == WHOLE / 3
        }),
{
    let a = attached(d, id, parent, index);
    let l = linked(d, id, parent, index);
    let z = with_share(l, id, 0);
    attaching_keeps_tree(d, id, parent, index);
    linking_keeps_tree(d, id, parent, index);
    assert forall|i: int| 0 <= i < z.len() implies share_ok(
        #[trigger] z[i].data.tiling_size as int,
    ) by {
        assert(share_ok(l[i].data.tiling_size as int));
    }
    lemma_same_links_wf(l, z);
    let all = l[parent as int].children;
    lemma_children(l, parent);
    assert forall|k: int| 0 <= k < all.len() implies kind(l, #[trigger] all[k]) == kind(a, all[k])
        && kind(l, all[k]) == kind(z, all[k]) by {
        assert(valid(l, l[parent as int].children[k]));
        assert(a[all[k] as int].data.kind == l[all[k] as int].data.kind);
    }
    lemma_tiles_same_kinds(l, a, all);
    lemma_tiles_same_kinds(l, z, all);
    assert(tile_siblings(a, id) == tile_siblings(l, id));
    assert(tile_siblings(z, id) == tile_siblings(l, id));
    lemma_resized_third(z, id, WHOLE as int / 3);
}

/// The third that a window gets where it moves beside two others.
#[verifier::spinoff_prover]
proof fn lemma_moved_third(t: Tree, id: usize, parent: usize, index: int)
    requires
        wf(t),
        valid(t, id),
        valid(t, parent),
        id != parent,
        kind(t, id) == ContainerKind::TilingWindow,
        t[id as int].parent matches Some(p) && p != parent,
        !is_only_child_of_split(t, id),
        kind(t, parent).is_direction(),
        0 <= index <= t[parent as int].children.len(),
    ensures
        ({
            let u = moved(t, id, parent, index);
            tile_siblings(u, id).len() == 2 ==> share_of(u, id) == WHOLE / 3
        }),
{
    reveal(moved);
    let d = detached(t, id);
    let a = attached(d, id, parent, index);
    let u = moved(t, id, parent, index);
    lemma_parent_facts(t, id);
    lemma_window_childless(t, id);
    unlinking_keeps_tree(t, id);
    assert(d[parent as int].children == cut_out(t, id)[parent as int].children);
    attaching_keeps_tree(d, id, parent, index);
    lemma_attached_third(d, id, parent, index);
    focusing_keeps_tree(a, id, t.len());
    let all = a[parent as int].children;
    lemma_children(a, parent);
    assert forall|k: int| 0 <= k < all.len() implies kind(a, #[trigger] all[k]) == kind(
        u,
        all[k],
    ) by {
        assert(valid(a, a[parent as int].children[k]));
        assert(u[all[k] as int].data == a[all[k] as int].data);
    }
    lemma_tiles_same_kinds(a, u, all);
    assert(u[parent as int].children == all);
    assert(tile_siblings(u, id) == tile_siblings(a, id));
}

/// A step past or into the tile beside a window.
pub proof fn lemma_steps_past(
    t: Tree,
    sync: PendingSyncView,
    window: usize,
    sibling: usize,
    direction: Direction,
    context: MoveContext,
)
    requires
        tiling_step(t, window, direction) == TilingStep::ToSibling(sibling),
    ensures
        stepped(t, sync, window, direction, context) == moved_to_sibling(
            t,
            sync,
            window,
            sibling,
            direction,
        ),
{
    reveal(stepped);
}

/// A step across the axis of the workspace.
pub proof fn lemma_steps_across(
    t: Tree,
    sync: PendingSyncView,
    window: usize,
    direction: Direction,
    context: MoveContext,
)
    requires
        tiling_step(t, window, direction) == TilingStep::Across,
    ensures
        stepped(t, sync, window, direction, context) == moved_across(
            t,
            sync,
            window,
            direction,
            context.gaps,
        ),
{
    reveal(stepped);
}

/// A step to the upper or lower edge of the workspace.
proof fn lemma_steps_to_edge(
    t: Tree,
    sync: PendingSyncView,
    window: usize,
    direction: Direction,
    context: MoveContext,
)
    requires
        tiling_step(t, window, direction) == TilingStep::ToVerticalEdge,
    ensures
        stepped(t, sync, window, direction, context) == moved_to_vertical_edge(
            t,
            sync,
            window,
            direction,
            context.gaps,
        ),
{
    reveal(stepped);
}

/// A window that moves away from the edge of its split swaps with its neighbor.
#[verifier::spinoff_prover]
proof fn lemma_swaps(
    t: Tree,
    sync: PendingSyncView,
    workspace: usize,
    inner: usize,
    window: usize,
    neighbor: usize,
    other: usize,
    first: Direction,
    last: Direction,
    context: MoveContext,
)
    requires
        nested(t, workspace, inner, seq![window, neighbor], other, last),
        TilingDirection::from_direction(first) != TilingDirection::from_direction(last),
        !first.is_backward(),
    ensures
        ({
            let there = moved_tiling(t, sync, window, first, context);
            &&& there.2 is Ok
            &&& there.0 == moved(t, window, inner, 1)
        }),
{
    let windows = seq![window, neighbor];
    lemma_nested(t, workspace, inner, windows, other, last);
    lemma_nested_ready(t, workspace, inner, windows, other, last, window);
    assert(windows[0] == window && windows[1] == neighbor);
    lemma_position_is(windows, window, 0);
    lemma_position_is(windows, neighbor, 1);
    let after = windows.skip(1);
    assert(after =~= seq![neighbor]);
    lemma_all_tiles(t, after);
    assert(tiling_step(t, window, first) == TilingStep::ToSibling(neighbor));
    lemma_steps_past(t, sync, window, neighbor, first, context);
}

/// The split after the two have swapped.
#[verifier::spinoff_prover]
proof fn lemma_swapped(
    t: Tree,
    workspace: usize,
    inner: usize,
    window: usize,
    neighbor: usize,
    other: usize,
    last: Direction,
)
    requires
        nested(t, workspace, inner, seq![window, neighbor], other, last),
    ensures
        ({
            let u = moved(t, window, inner, 1);
            &&& same_room(t, u, workspace, window)
            &&& nested(u, workspace, inner, seq![neighbor, window], other, last)
        }),
{
    let windows = seq![window, neighbor];
    lemma_nested(t, workspace, inner, windows, other, last);
    assert(windows[0] == window && windows[1] == neighbor);
    lemma_without_at(windows, window, 0);
    assert(shifted(windows, window, 1) =~= seq![neighbor, window]);
    moving_keeps_tree(t, window, inner, 1);
    lemma_moved_within(t, window, inner, 1);
}

/// A window that leaves its split goes to the edge of the workspace.
#[verifier::spinoff_prover]
proof fn lemma_leaves(
    t: Tree,
    sync: PendingSyncView,
    workspace: usize,
    inner: usize,
    window: usize,
    neighbor: usize,
    other: usize,
    last: Direction,
    context: MoveContext,
)
    requires
        nested(t, workspace, inner, seq![neighbor, window], other, last),
    ensures
        ({
            let returned = moved_tiling(t, sync, window, last, context);
            &&& returned.2 is Ok
            &&& returned.0 == moved_beside(t, window, inner, workspace, last)
        }),
{
    let windows = seq![neighbor, window];
    let axis = TilingDirection::from_direction(last);
    lemma_nested(t, workspace, inner, windows, other, last);
    lemma_nested_ready(t, workspace, inner, windows, other, last, window);
    assert(windows[0] == neighbor && windows[1] == window);
    lemma_all_tiles(t, windows);
    assert(ancestors(t, inner)[0] == workspace);
    lemma_first_along(t, ancestors(t, inner), axis);
    assert(tiling_step(t, window, last) == TilingStep::IntoAncestor(workspace));
    lemma_steps_out(t, sync, window, workspace, last, context);
    assert(ancestors(t, window)[0] == inner);
    lemma_first_under(t, ancestors(t, window), workspace);
}

/// Where a split notes nothing of a window, the window just moves beside it.
proof fn lemma_beside_plain(
    t: Tree,
    window: usize,
    column: usize,
    target: usize,
    direction: Direction,
)
    requires
        t[column as int].unstack.len() == 0,
    ensures
        moved_beside(t, window, column, target, direction) == moved(
            t,
            window,
            target,
            position(t[target as int].children, column) + if direction.is_backward() {
                0int
            } else {
                1int
            },
        ),
{
    reveal(moved_beside);
    assert(unstack_fraction(t, column, window) is None);
}

/// The workspace after a window has left its split.
#[verifier::spinoff_prover]
proof fn lemma_left_split(
    t: Tree,
    workspace: usize,
    inner: usize,
    window: usize,
    neighbor: usize,
    other: usize,
    last: Direction,
)
    requires
        nested(t, workspace, inner, seq![neighbor, window], other, last),
    ensures
        ({
            let u = moved_beside(t, window, inner, workspace, last);
            &&& same_room(t, u, workspace, window)
            &&& at_edge(u, workspace, window, last)
        }),
{
    let windows = seq![neighbor, window];
    lemma_nested(t, workspace, inner, windows, other, last);
    assert(windows[0] == neighbor && windows[1] == window);
    let all = t[workspace as int].children;
    assert(all.no_duplicates());
    let place: int = if last.is_backward() {
        0
    } else {
        1
    };
    lemma_position_is(all, inner, place);
    let index: int = if last.is_backward() {
        0
    } else {
        2
    };
    assert(!is_only_child_of_split(t, window));
    lemma_beside_plain(t, window, inner, workspace, last);
    lemma_moved_links(t, window, workspace, index);
    lemma_moved_third(t, window, workspace, index);
    moving_keeps_tree(t, window, workspace, index);
    moving_changes_shares_only(t, window, workspace, index);
    let u = moved(t, window, workspace, index);
    lemma_kinds(t, u);
    lemma_same_room(t, u, workspace, window);
    let now = u[workspace as int].children;
    assert(now == all.insert(index, window));
    assert(now.no_duplicates());
    assert(now =~= if last.is_backward() {
        seq![window, inner, other]
    } else {
        seq![other, inner, window]
    });
    assert(u[inner as int] == u[inner as int] && u[other as int] == u[other as int]
        && u[window as int] == u[window as int]);
    assert forall|k: int| 0 <= k < now.len() implies is_tile(u, #[trigger] now[k]) by {
        assert(now[k] == window || now[k] == inner || now[k] == other);
    }
    lemma_all_tiles(u, now);
    assert(now[index] == window);
    lemma_without(now, window);
    assert(tile_siblings(u, window).len() == 2);
}

/// Whether a window stands across its workspace from a split with all else.
pub open spec fn crossed(
    t: Tree,
    workspace: usize,
    split: usize,
    window: usize,
    all: Seq<usize>,
    last: Direction,
) -> bool {
    let axis = TilingDirection::from_direction(last);
    &&& wf(t)
    &&& t.len() >= 4
    &&& valid(t, workspace)
    &&& kind(t, workspace) == ContainerKind::Workspace
    &&& t[workspace as int].data.tiling_direction != axis
    &&& t[workspace as int].children == seq![window, split]
    &&& kind(t, window) == ContainerKind::TilingWindow
    &&& t[window as int].parent == Some(workspace)
    &&& kind(t, split) == ContainerKind::Split
    &&& t[split as int].parent == Some(workspace)
    &&& t[split as int].data.tiling_direction == axis
    &&& t[split as int].children == all
    &&& all.len() == 2
}

proof fn lemma_one_of_kind(t: Tree, window: usize, split: usize)
    requires
        kind(t, window) == ContainerKind::TilingWindow,
        kind(t, split) == ContainerKind::Split,
    ensures
        of_kind(t, seq![window, split], ContainerKind::Split) == seq![split],
        of_kind(t, seq![split, window], ContainerKind::Split) == seq![split],
{
    reveal_with_fuel(of_kind, 3);
    assert(seq![window, split].drop_last() =~= seq![window]);
    assert(seq![split, window].drop_last() =~= seq![split]);
    assert(seq![window].drop_last() =~= Seq::<usize>::empty());
    assert(seq![split].drop_last() =~= Seq::<usize>::empty());
    assert(of_kind(t, seq![window, split], ContainerKind::Split) =~= seq![split]);
    assert(of_kind(t, seq![split, window], ContainerKind::Split) =~= seq![split]);
}

/// The first step of a window that is at the edge of its split already.
#[verifier::spinoff_prover]
#[verifier::rlimit(40)]
proof fn lemma_goes_across(
    t: Tree,
    sync: PendingSyncView,
    workspace: usize,
    inner: usize,
    window: usize,
    neighbor: usize,
    other: usize,
    first: Direction,
    last: Direction,
    context: MoveContext,
)
    requires
        nested(t, workspace, inner, seq![window, neighbor], other, last),
        TilingDirection::from_direction(first) != TilingDirection::from_direction(last),
        first.is_backward(),
    ensures
        moved_tiling(t, sync, window, first, context) == moved_across(
            t,
            sync,
            window,
            first,
            context.gaps,
        ),
        workspace_of(t, window) == Some(workspace),
{
    let windows = seq![window, neighbor];
    lemma_nested(t, workspace, inner, windows, other, last);
    lemma_nested_ready(t, workspace, inner, windows, other, last, window);
    assert(windows[0] == window && windows[1] == neighbor);
    lemma_position_is(windows, window, 0);
    assert(windows.take(0) =~= Seq::<usize>::empty());
    if first.is_vertical() {
        assert(tiling_step(t, window, first) == TilingStep::ToVerticalEdge);
        lemma_steps_to_edge(t, sync, window, first, context);
    } else {
        lemma_none_across(t, inner, workspace, TilingDirection::from_direction(first));
        assert(tiling_step(t, window, first) == TilingStep::Across);
        lemma_steps_across(t, sync, window, first, context);
    }
}

/// A workspace along its other axis.
#[verifier::spinoff_prover]
pub proof fn lemma_turned(w: Tree, workspace: usize, direction: TilingDirection)
    requires
        wf(w),
        valid(w, workspace),
    ensures
        wf(with_direction(w, workspace, direction)),
        same_links(w, with_direction(w, workspace, direction)),
{
    let u = with_direction(w, workspace, direction);
    assert forall|i: int| 0 <= i < u.len() implies share_ok(
        #[trigger] u[i].data.tiling_size as int,
    ) by {
        assert(share_ok(w[i].data.tiling_size as int));
    }
    assert forall|i: int| 0 <= i < w.len() implies (#[trigger] u[i]).parent == w[i].parent
        && u[i].children == w[i].children && u[i].focus == w[i].focus && u[i].data.kind
        == w[i].data.kind by {}
    lemma_same_links_wf(w, u);
}

/// The tiles of the workspace.
proof fn lemma_nested_row(
    t: Tree,
    workspace: usize,
    inner: usize,
    windows: Seq<usize>,
    other: usize,
    last: Direction,
)
    requires
        nested(t, workspace, inner, windows, other, last),
    ensures
        ({
            let row = t[workspace as int].children;
            &&& row.no_duplicates()
            &&& row.len() == 2
            &&& tiles(t, workspace) == row
            &&& forall|y: usize| #[trigger] row.contains(y) <==> y == inner || y == other
        }),
{
    let row = t[workspace as int].children;
    lemma_nested(t, workspace, inner, windows, other, last);
    assert(row.no_duplicates());
    assert forall|k: int| 0 <= k < row.len() implies is_tile(t, #[trigger] row[k]) by {
        assert(row[k] == inner || row[k] == other);
    }
    lemma_all_tiles(t, row);
    assert forall|y: usize| #[trigger] row.contains(y) implies y == inner || y == other by {
        let k = choose|k: int| 0 <= k < row.len() && row[k] == y;
    }
    assert(row[0] == inner || row[1] == inner);
    assert(row[0] == other || row[1] == other);
    assert(row.contains(inner) && row.contains(other));
}

/// The workspace with all its tiles in a split of their own, laid out along its other axis.
#[verifier::spinoff_prover]
proof fn lemma_inverted(
    t: Tree,
    workspace: usize,
    inner: usize,
    window: usize,
    neighbor: usize,
    other: usize,
    last: Direction,
    context: MoveContext,
)
    requires
        nested(t, workspace, inner, seq![window, neighbor], other, last),
        t.len() < MAX_CONTAINERS,
        t.len() < usize::MAX,
    ensures
        ({
            let u = workspace_inverted(t, window, workspace, context.gaps);
            let split = t.len() as usize;
            &&& without(tiles(t, workspace), window).len() == 2
            &&& wf(u)
            &&& u.len() == t.len() + 1
            &&& same_room(t, u, workspace, window)
            &&& u[workspace as int].children == seq![split]
            &&& u[workspace as int].data.tiling_direction != TilingDirection::from_direction(last)
            &&& kind(u, workspace) == ContainerKind::Workspace
            &&& kind(u, split) == ContainerKind::Split
            &&& u[split as int].data.tiling_direction == TilingDirection::from_direction(last)
            &&& u[split as int].parent == Some(workspace)
            &&& u[split as int].children == in_order(inner, other, last)
            &&& u[inner as int].parent == Some(split)
            &&& u[inner as int].children == seq![window, neighbor]
            &&& kind(u, inner) == ContainerKind::Split
            &&& u[other as int].parent == Some(split)
            &&& u[other as int].children.len() == 0
            &&& kind(u, other) == ContainerKind::TilingWindow
            &&& u[window as int] == t[window as int]
            &&& u[neighbor as int] == t[neighbor as int]
        }),
{
    let windows = seq![window, neighbor];
    let split = t.len() as usize;
    let gaps = context.gaps;
    let dir = t[workspace as int].data.tiling_direction;
    lemma_nested(t, workspace, inner, windows, other, last);
    lemma_nested_row(t, workspace, inner, windows, other, last);
    assert(windows[0] == window && windows[1] == neighbor);
    let row = t[workspace as int].children;
    assert(!row.contains(window) && !row.contains(neighbor));
    lemma_without(row, window);
    let n = with_new_split(t, dir, gaps);
    lemma_push_wf(t, split_data(dir, gaps));
    lemma_new_split(t, dir, gaps, workspace);
    assert(are_tiles_of(n, row, workspace)) by {
        assert forall|j: int| 0 <= j < row.len() implies tiles(n, workspace).contains(
            #[trigger] row[j],
        ) by {
            assert(row.contains(row[j]));
        }
    }
    lemma_wrapped(n, split, workspace, row);
    wrapping_keeps_tree(n, split, workspace, row);
    wrapping_changes_shares_only(n, split, workspace, row);
    let w = wrapped(n, split, workspace, row);
    lemma_kinds(n, w);
    assert(row =~= seq![row[0], row[1]]);
    lemma_column_in_row(row, 0, row, split);
    assert(row.take(0).push(split) + row.skip(2) =~= seq![split]);
    lemma_turned(w, workspace, dir.inverse());
    assert(n[window as int] == t[window as int] && n[neighbor as int] == t[neighbor as int]);
    assert(n[workspace as int] == t[workspace as int]);
    assert(n[inner as int] == t[inner as int] && n[other as int] == t[other as int]);
    assert(w[window as int] == n[window as int] && w[neighbor as int] == n[neighbor as int]);
    assert(w[inner as int].parent == Some(split) && w[other as int].parent == Some(split));
    lemma_same_room(n, w, workspace, window);
}

/// What the first step across leaves.
#[verifier::spinoff_prover]
#[verifier::rlimit(40)]
proof fn lemma_crossed(
    t: Tree,
    sync: PendingSyncView,
    workspace: usize,
    inner: usize,
    window: usize,
    neighbor: usize,
    other: usize,
    first: Direction,
    last: Direction,
    context: MoveContext,
)
    requires
        nested(t, workspace, inner, seq![window, neighbor], other, last),
        first.is_backward(),
        workspace_of(t, window) == Some(workspace),
        t.len() < MAX_CONTAINERS,
        t.len() < usize::MAX,
    ensures
        ({
            let there = moved_across(t, sync, window, first, context.gaps);
            let x = there.0;
            let split = t.len() as usize;
            &&& there.2 is Ok
            &&& same_room(t, x, workspace, window)
            &&& crossed(x, workspace, split, window, in_order(inner, other, last), last)
            &&& x.len() == t.len() + 1
            &&& kind(x, inner) == ContainerKind::Split
            &&& x[inner as int].children == seq![neighbor]
            &&& kind(x, neighbor) == ContainerKind::TilingWindow
            &&& kind(x, other) == ContainerKind::TilingWindow
        }),
{
    let windows = seq![window, neighbor];
    let split = t.len() as usize;
    lemma_nested(t, workspace, inner, windows, other, last);
    assert(windows[0] == window && windows[1] == neighbor);
    lemma_inverted(t, workspace, inner, window, neighbor, other, last, context);
    let u = workspace_inverted(t, window, workspace, context.gaps);
    assert(!is_only_child_of_split(u, window));
    lemma_moved_links(u, window, workspace, 0);
    lemma_moved_third(u, window, workspace, 0);
    moving_keeps_tree(u, window, workspace, 0);
    moving_changes_shares_only(u, window, workspace, 0);
    let v = moved(u, window, workspace, 0);
    lemma_kinds(u, v);
    lemma_same_room(u, v, workspace, window);
    assert(v[workspace as int].children =~= seq![window, split]);
    lemma_without_at(windows, window, 0);
    assert(v[inner as int].children =~= seq![neighbor]);
    assert(v[split as int].children == u[split as int].children);
    assert(kind(v, window) == ContainerKind::TilingWindow) by {
        assert(v[window as int] == v[window as int]);
    }
    assert(kind(v, split) == ContainerKind::Split);
    assert(kind(v, inner) == ContainerKind::Split);
    lemma_all_tiles(v, seq![window, split]);
    lemma_one_of_kind(v, window, split);
    assert(child_splits_flattened(v, workspace) == v) by {
        reveal_with_fuel(child_splits_flattened_of, 2);
        assert(seq![split].drop_last() =~= Seq::<usize>::empty());
    }
    lemma_resized_third(v, window, (WHOLE as int) / 2);
    let x = resized(v, window, (WHOLE as int) / 2);
    lemma_kinds(v, x);
    lemma_same_room(v, x, workspace, window);
    assert(x[window as int] == x[window as int] && x[split as int] == x[split as int]
        && x[inner as int] == x[inner as int] && x[workspace as int] == x[workspace as int]
        && x[neighbor as int] == x[neighbor as int] && x[other as int] == x[other as int]);
    assert(v[neighbor as int] == v[neighbor as int] && v[other as int] == v[other as int]);
}

/// A split that only one window is left in, next to another window in a split that stands across
/// from a third.
spec fn left_behind(
    x: Tree,
    workspace: usize,
    split: usize,
    inner: usize,
    window: usize,
    neighbor: usize,
    other: usize,
    last: Direction,
) -> bool {
    &&& crossed(x, workspace, split, window, in_order(inner, other, last), last)
    &&& kind(x, inner) == ContainerKind::Split
    &&& kind(x, neighbor) == ContainerKind::TilingWindow
    &&& kind(x, other) == ContainerKind::TilingWindow
    &&& x[inner as int].children == seq![neighbor]
    &&& window != neighbor && window != other && neighbor != other
    &&& x.len() >= 5
}

proof fn lemma_left_behind(
    x: Tree,
    workspace: usize,
    split: usize,
    inner: usize,
    window: usize,
    neighbor: usize,
    other: usize,
    last: Direction,
)
    requires
        left_behind(x, workspace, split, inner, window, neighbor, other, last),
    ensures
        valid(x, split) && valid(x, window) && valid(x, inner) && valid(x, other),
        valid(x, neighbor),
        x[inner as int].parent == Some(split),
        x[other as int].parent == Some(split),
        x[neighbor as int].parent == Some(inner),
        x[window as int].children.len() == 0,
        x[neighbor as int].children.len() == 0,
        x[other as int].children.len() == 0,
{
    let k: int = if last.is_backward() {
        0
    } else {
        1
    };
    assert(x[split as int].children[k] == inner && x[split as int].children[1 - k] == other);
    assert(x[workspace as int].children[1] == split && x[workspace as int].children[0] == window);
    assert(x[inner as int].children[0] == neighbor);
    lemma_children(x, workspace);
    lemma_children(x, split);
    lemma_children(x, inner);
    lemma_window_childless(x, window);
    lemma_window_childless(x, neighbor);
    lemma_window_childless(x, other);
}

/// The window takes the place of the split that it was alone in.
#[verifier::spinoff_prover]
proof fn lemma_joined(
    x: Tree,
    workspace: usize,
    split: usize,
    inner: usize,
    window: usize,
    neighbor: usize,
    other: usize,
    last: Direction,
)
    requires
        left_behind(x, workspace, split, inner, window, neighbor, other, last),
    ensures
        ({
            let y = flattened(x, inner);
            &&& y.len() == x.len()
            &&& crossed(y, workspace, split, window, in_order(neighbor, other, last), last)
            &&& same_room(x, y, workspace, window)
            &&& y[inner as int].parent is None
            &&& kind(y, neighbor) == ContainerKind::TilingWindow
            &&& kind(y, other) == ContainerKind::TilingWindow
        }),
{
    let pair = in_order(inner, other, last);
    let k: int = if last.is_backward() {
        0
    } else {
        1
    };
    lemma_left_behind(x, workspace, split, inner, window, neighbor, other, last);
    let y = flattened(x, inner);
    lemma_flattened(x, inner);
    lemma_flattened_only(x, inner);
    flattening_keeps_tree(x, inner);
    lemma_kinds(x, y);
    lemma_same_room(x, y, workspace, window);
    assert(pair.no_duplicates());
    lemma_position_is(pair, inner, k);
    assert forall|z: usize| #[trigger] seq![neighbor].contains(z) implies z == neighbor by {}
    assert(y[split as int].children =~= in_order(neighbor, other, last));
    assert(y[workspace as int] == x[workspace as int]);
    assert(y[window as int] == x[window as int]);
    assert(y[other as int] == x[other as int]);
    assert(y[neighbor as int] == y[neighbor as int]);
}

/// What stands on the workspace, with the split that only one window is left in.
#[verifier::spinoff_prover]
proof fn lemma_left_descendants(
    x: Tree,
    workspace: usize,
    split: usize,
    inner: usize,
    window: usize,
    neighbor: usize,
    other: usize,
    last: Direction,
)
    requires
        left_behind(x, workspace, split, inner, window, neighbor, other, last),
    ensures
        descendants(x, workspace) == (if last.is_backward() {
            seq![window, split, inner, neighbor, other]
        } else {
            seq![window, split, other, inner, neighbor]
        }),
{
    let pair = in_order(inner, other, last);
    let fuel = x.len();
    lemma_left_behind(x, workspace, split, inner, window, neighbor, other, last);
    lemma_descend_pair(x, window, split, fuel);
    lemma_descend_none(x, window, (fuel - 1) as nat);
    lemma_descend_pair(x, pair[0], pair[1], (fuel - 1) as nat);
    assert(pair =~= seq![pair[0], pair[1]]);
    lemma_descend_none(x, other, (fuel - 2) as nat);
    lemma_descend_none(x, neighbor, (fuel - 3) as nat);
    assert(descend(x, seq![neighbor], (fuel - 2) as nat) =~= seq![neighbor]) by {
        assert(seq![neighbor].drop_last() =~= Seq::<usize>::empty());
        assert(descend(x, Seq::<usize>::empty(), (fuel - 2) as nat) =~= Seq::<usize>::empty());
    }
    assert(descendants(x, workspace) =~= if last.is_backward() {
        seq![window, split, inner, neighbor, other]
    } else {
        seq![window, split, other, inner, neighbor]
    });
}

/// Three windows stand on the workspace then.
#[verifier::spinoff_prover]
proof fn lemma_joined_count(
    y: Tree,
    workspace: usize,
    split: usize,
    window: usize,
    neighbor: usize,
    other: usize,
    last: Direction,
)
    requires
        crossed(y, workspace, split, window, in_order(neighbor, other, last), last),
        kind(y, neighbor) == ContainerKind::TilingWindow,
        kind(y, other) == ContainerKind::TilingWindow,
    ensures
        window_count(y, workspace) <= 3,
        workspace_of(y, window) == Some(workspace),
{
    let fuel = y.len();
    let rest = descendants(y, workspace);
    let both = in_order(neighbor, other, last);
    assert(both =~= seq![both[0], both[1]]);
    lemma_children(y, workspace);
    lemma_children(y, split);
    assert(y[workspace as int].children[0] == window && y[workspace as int].children[1] == split);
    assert(y[split as int].children[0] == both[0] && y[split as int].children[1] == both[1]);
    lemma_window_childless(y, both[0]);
    lemma_window_childless(y, both[1]);
    lemma_window_childless(y, window);
    lemma_descend_pair(y, window, split, fuel);
    lemma_descend_none(y, window, (fuel - 1) as nat);
    lemma_descend_windows(y, both[0], both[1], (fuel - 1) as nat);
    assert(rest =~= seq![window, split, both[0], both[1]]);
    lemma_of_kind_fewer(y, rest, ContainerKind::TilingWindow, 1);
    assert(enclosing_fuel(y, workspace, ContainerKind::Workspace, (fuel - 1) as nat) == Some(
        workspace,
    ));
}

/// The split that only one window is left in gives way to it before the last step.
#[verifier::spinoff_prover]
proof fn lemma_crossed_ready(
    x: Tree,
    workspace: usize,
    split: usize,
    inner: usize,
    window: usize,
    neighbor: usize,
    other: usize,
    last: Direction,
)
    requires
        left_behind(x, workspace, split, inner, window, neighbor, other, last),
    ensures
        ({
            let y = flattened(x, inner);
            &&& workspace_of(x, window) == Some(workspace)
            &&& ready_to_move(x, window, workspace) == y
        }),
{
    let y = flattened(x, inner);
    let all = descendants(x, workspace);
    let splits = of_kind(x, all, ContainerKind::Split);
    lemma_left_behind(x, workspace, split, inner, window, neighbor, other, last);
    lemma_joined(x, workspace, split, inner, window, neighbor, other, last);
    lemma_left_descendants(x, workspace, split, inner, window, neighbor, other, last);
    lemma_of_kind_some(x, all, ContainerKind::Split);
    assert(all.contains(inner)) by {
        assert(all[2] == inner || all[3] == inner);
    }
    assert(splits.contains(inner));
    assert forall|j: int| 0 <= j < splits.len() implies {
        let z = #[trigger] splits[j];
        &&& !is_redundant(y, z)
        &&& z != inner ==> !is_redundant(x, z)
    } by {
        assert(all.contains(splits[j]));
        let i = choose|i: int| 0 <= i < all.len() && all[i] == splits[j];
        assert(splits[j] == split || splits[j] == inner);
    }
    lemma_one_redundant(x, splits, inner);
    assert(splits_normalized(x, workspace) == y);
    assert(!is_only_child_of_split(y, window));
    assert(enclosing_fuel(x, workspace, ContainerKind::Workspace, (x.len() - 1) as nat) == Some(
        workspace,
    ));
}

/// Whether a window stands along its workspace beside a split with two others.
spec fn aligned(
    m: Tree,
    workspace: usize,
    split: usize,
    window: usize,
    neighbor: usize,
    other: usize,
    last: Direction,
) -> bool {
    let axis = TilingDirection::from_direction(last);
    &&& wf(m)
    &&& valid(m, workspace)
    &&& kind(m, workspace) == ContainerKind::Workspace
    &&& m[workspace as int].data.tiling_direction == axis
    &&& m[workspace as int].children == in_order(window, split, last)
    &&& kind(m, window) == ContainerKind::TilingWindow
    &&& m[window as int].parent == Some(workspace)
    &&& valid(m, window)
    &&& kind(m, split) == ContainerKind::Split
    &&& m[split as int].parent == Some(workspace)
    &&& valid(m, split)
    &&& m[split as int].data.tiling_direction == axis
    &&& m[split as int].children == in_order(neighbor, other, last)
    &&& kind(m, neighbor) == ContainerKind::TilingWindow
    &&& kind(m, other) == ContainerKind::TilingWindow
    &&& window != neighbor && window != other && neighbor != other
}

/// The workspace along its first axis again.
#[verifier::spinoff_prover]
proof fn lemma_aligned(
    y: Tree,
    workspace: usize,
    split: usize,
    window: usize,
    neighbor: usize,
    other: usize,
    last: Direction,
    context: MoveContext,
)
    requires
        crossed(y, workspace, split, window, in_order(neighbor, other, last), last),
        kind(y, neighbor) == ContainerKind::TilingWindow,
        kind(y, other) == ContainerKind::TilingWindow,
        window != neighbor && window != other && neighbor != other,
    ensures
        ({
            let u = workspace_inverted(y, window, workspace, context.gaps);
            let m = moved(
                u,
                window,
                workspace,
                entry_place(u, workspace, last.is_backward()),
            );
            &&& without(tiles(y, workspace), window).len() == 1
            &&& aligned(m, workspace, split, window, neighbor, other, last)
            &&& same_room(y, m, workspace, window)
        }),
{
    let axis = TilingDirection::from_direction(last);
    let pair = seq![window, split];
    lemma_children(y, workspace);
    assert(y[workspace as int].children[0] == window && y[workspace as int].children[1] == split);
    lemma_all_tiles(y, pair);
    lemma_without_at(pair, window, 0);
    assert(without(pair, window) =~= seq![split]);
    let u = with_direction(y, workspace, axis);
    assert(workspace_inverted(y, window, workspace, context.gaps) == u);
    lemma_turned(y, workspace, axis);
    lemma_window_childless(u, window);
    let place = entry_place(u, workspace, last.is_backward());
    assert(shifted(pair, window, place) =~= in_order(window, split, last));
    moving_keeps_tree(u, window, workspace, place);
    lemma_moved_within(u, window, workspace, place);
}

/// The split gives way to the two that it holds.
#[verifier::spinoff_prover]
proof fn lemma_three(
    m: Tree,
    workspace: usize,
    split: usize,
    window: usize,
    neighbor: usize,
    other: usize,
    last: Direction,
)
    requires
        aligned(m, workspace, split, window, neighbor, other, last),
    ensures
        ({
            let v = flattened(m, split);
            let both = in_order(neighbor, other, last);
            let all = v[workspace as int].children;
            &&& child_splits_flattened(m, workspace) == v
            &&& wf(v)
            &&& v.len() == m.len()
            &&& same_but_shares(m, v)
            &&& all == (if last.is_backward() {
                seq![window, both[0], both[1]]
            } else {
                seq![both[0], both[1], window]
            })
            &&& v[window as int].parent == Some(workspace)
        }),
{
    let both = in_order(neighbor, other, last);
    let now = in_order(window, split, last);
    lemma_all_tiles(m, now);
    lemma_one_of_kind(m, window, split);
    let v = flattened(m, split);
    assert(child_splits_flattened(m, workspace) == v) by {
        reveal_with_fuel(child_splits_flattened_of, 2);
        assert(seq![split].drop_last() =~= Seq::<usize>::empty());
    }
    lemma_flattened(m, split);
    lemma_flattened_only(m, split);
    flattening_keeps_tree(m, split);
    let k: int = if last.is_backward() {
        1
    } else {
        0
    };
    assert(now.no_duplicates());
    lemma_position_is(now, split, k);
    assert(v[workspace as int].children =~= if last.is_backward() {
        seq![window, both[0], both[1]]
    } else {
        seq![both[0], both[1], window]
    });
    assert(!both.contains(window));
}

/// The window gets a third beside two others.
#[verifier::spinoff_prover]
proof fn lemma_third(
    v: Tree,
    workspace: usize,
    window: usize,
    neighbor: usize,
    other: usize,
    last: Direction,
)
    requires
        wf(v),
        valid(v, workspace),
        valid(v, window),
        kind(v, workspace) == ContainerKind::Workspace,
        v[workspace as int].data.tiling_direction == TilingDirection::from_direction(last),
        ({
            let both = in_order(neighbor, other, last);
            v[workspace as int].children == (if last.is_backward() {
                seq![window, both[0], both[1]]
            } else {
                seq![both[0], both[1], window]
            })
        }),
        v[window as int].parent == Some(workspace),
        kind(v, window) == ContainerKind::TilingWindow,
        kind(v, neighbor) == ContainerKind::TilingWindow,
        kind(v, other) == ContainerKind::TilingWindow,
    ensures
        ({
            let x = resized(v, window, (WHOLE as int) / 3);
            &&& tiles(v, workspace).len() == 3
            &&& same_room(v, x, workspace, window)
            &&& at_edge(x, workspace, window, last)
        }),
{
    let all = v[workspace as int].children;
    lemma_children(v, workspace);
    assert forall|j: int| 0 <= j < all.len() implies is_tile(v, #[trigger] all[j]) by {
        assert(all[j] == window || all[j] == neighbor || all[j] == other);
    }
    lemma_all_tiles(v, all);
    assert(all.no_duplicates());
    assert(all.contains(window)) by {
        assert(all[0] == window || all[2] == window);
    }
    lemma_without(all, window);
    assert(tile_siblings(v, window).len() == 2);
    lemma_resized_third(v, window, (WHOLE as int) / 3);
    let x = resized(v, window, (WHOLE as int) / 3);
    lemma_kinds(v, x);
    lemma_same_room(v, x, workspace, window);
    assert(x[workspace as int] == x[workspace as int] && x[window as int] == x[window as int]);
    assert forall|j: int| 0 <= j < all.len() implies is_tile(x, #[trigger] all[j]) by {
        assert(is_tile(v, all[j]));
        assert(valid(v, v[workspace as int].children[j]));
        assert(x[all[j] as int] == x[all[j] as int]);
    }
    lemma_all_tiles(x, all);
}

/// The last step of a window that stands across its workspace.
#[verifier::spinoff_prover]
proof fn lemma_crosses_back(
    y: Tree,
    sync: PendingSyncView,
    workspace: usize,
    split: usize,
    window: usize,
    neighbor: usize,
    other: usize,
    last: Direction,
    context: MoveContext,
)
    requires
        crossed(y, workspace, split, window, in_order(neighbor, other, last), last),
        kind(y, neighbor) == ContainerKind::TilingWindow,
        kind(y, other) == ContainerKind::TilingWindow,
        workspace_of(y, window) == Some(workspace),
        window != neighbor && window != other && neighbor != other,
    ensures
        ({
            let returned = moved_across(y, sync, window, last, context.gaps);
            &&& returned.2 is Ok
            &&& same_room(y, returned.0, workspace, window)
            &&& at_edge(returned.0, workspace, window, last)
        }),
{
    lemma_aligned(y, workspace, split, window, neighbor, other, last, context);
    let u = workspace_inverted(y, window, workspace, context.gaps);
    let m = moved(u, window, workspace, entry_place(u, workspace, last.is_backward()));
    lemma_three(m, workspace, split, window, neighbor, other, last);
    let v = flattened(m, split);
    lemma_children(m, split);
    assert(m[split as int].children[0] == neighbor || m[split as int].children[1] == neighbor);
    assert(m[split as int].children[0] == other || m[split as int].children[1] == other);
    lemma_kinds(m, v);
    lemma_same_room(m, v, workspace, window);
    assert(v[workspace as int] == v[workspace as int] && v[window as int] == v[window as int]
        && v[neighbor as int] == v[neighbor as int] && v[other as int] == v[other as int]);
    lemma_third(v, workspace, window, neighbor, other, last);
}

/// The last step of a window that stands across its workspace goes across.
#[verifier::spinoff_prover]
#[verifier::rlimit(40)]
proof fn lemma_last_across(
    x: Tree,
    sync: PendingSyncView,
    workspace: usize,
    split: usize,
    window: usize,
    y: Tree,
    all: Seq<usize>,
    last: Direction,
    context: MoveContext,
)
    requires
        workspace_of(x, window) == Some(workspace),
        ready_to_move(x, window, workspace) == y,
        crossed(y, workspace, split, window, all, last),
        window_count(y, workspace) <= 3,
        workspace_of(y, window) == Some(workspace),
    ensures
        moved_tiling(x, sync, window, last, context) == moved_across(
            y,
            sync,
            window,
            last,
            context.gaps,
        ),
{
    let axis = TilingDirection::from_direction(last);
    let pair = seq![window, split];
    lemma_all_tiles(y, pair);
    assert(pair.no_duplicates());
    lemma_without_at(pair, window, 0);
    assert(tile_siblings(y, window).len() == 1);
    lemma_above_workspace(y, workspace, y.len());
    lemma_none_along(y, ancestors(y, workspace), axis);
    assert(tiling_step(y, window, last) == TilingStep::Across);
    lemma_steps_across(y, sync, window, last, context);
}

/// What moving a window in two directions after one another comes to.
pub open spec fn two_steps(
    t: Tree,
    sync: PendingSyncView,
    window: usize,
    first: Direction,
    last: Direction,
    context: MoveContext,
) -> Outcome {
    let there = moved_tiling(t, sync, window, first, context);
    match there.2 {
        Ok(_) => moved_tiling(there.0, there.1, window, last, context),
        Err(_) => there,
    }
}

proof fn lemma_crossed_route(
    t: Tree,
    sync: PendingSyncView,
    workspace: usize,
    inner: usize,
    window: usize,
    neighbor: usize,
    other: usize,
    first: Direction,
    last: Direction,
    context: MoveContext,
)
    requires
        nested(t, workspace, inner, seq![window, neighbor], other, last),
        TilingDirection::from_direction(first) != TilingDirection::from_direction(last),
        first.is_backward(),
        t.len() < MAX_CONTAINERS,
        t.len() < usize::MAX,
    ensures
        ({
            let arrived = two_steps(t, sync, window, first, last, context);
            &&& arrived.2 is Ok
            &&& same_room(t, arrived.0, workspace, window)
            &&& at_edge(arrived.0, workspace, window, last)
        }),
{
    let windows = seq![window, neighbor];
    let split = t.len() as usize;
    lemma_nested(t, workspace, inner, windows, other, last);
    assert(windows[0] == window && windows[1] == neighbor);
    lemma_goes_across(t, sync, workspace, inner, window, neighbor, other, first, last, context);
    lemma_crossed(t, sync, workspace, inner, window, neighbor, other, first, last, context);
    let there = moved_across(t, sync, window, first, context.gaps);
    let x = there.0;
    lemma_crossed_ready(x, workspace, split, inner, window, neighbor, other, last);
    let y = flattened(x, inner);
    lemma_joined(x, workspace, split, inner, window, neighbor, other, last);
    lemma_joined_count(y, workspace, split, window, neighbor, other, last);
    lemma_last_across(
        x,
        there.1,
        workspace,
        split,
        window,
        y,
        in_order(neighbor, other, last),
        last,
        context,
    );
    lemma_crosses_back(y, there.1, workspace, split, window, neighbor, other, last, context);
}

/// The rectangle of a window at the edge of its workspace.
proof fn lemma_edge_rect(t: Tree, u: Tree, workspace: usize, window: usize, last: Direction)
    requires
        at_edge(t, workspace, window, last),
        at_edge(u, workspace, window, last),
        same_room(t, u, workspace, window),
    ensures
        forall|length: int, horizontal: bool|
            tile_length(t, window, length, horizontal) == #[trigger] tile_length(
                u,
                window,
                length,
                horizontal,
            ),
        last.is_backward() ==> rect_of(t, window) == rect_of(u, window),
{
    let place: int = if last.is_backward() {
        0
    } else {
        2
    };
    let a = t[workspace as int].children;
    let b = u[workspace as int].children;
    assert(a.no_duplicates() && b.no_duplicates());
    lemma_position_is(a, window, place);
    lemma_position_is(b, window, place);
    assert(a.contains(window) && b.contains(window)) by {
        assert(a[place] == window && b[place] == window);
    }
    lemma_without(a, window);
    lemma_without(b, window);
    assert(tile_siblings(t, window).len() == 2 && tile_siblings(u, window).len() == 2);
    assert(rect_fuel(t, workspace, (t.len() - 1) as nat) == Some(t[workspace as int].data.rect));
    assert(rect_fuel(u, workspace, (u.len() - 1) as nat) == Some(u[workspace as int].data.rect));
}

/// Where a window stands after it has left a split does not depend on the way that it moved inside
/// the split before. It ends as the outermost of three tiles of the workspace, with a third of it,
/// so that it is as long as it is on the other way. At the near edge its rectangle is the same; at
/// the far edge the pixels before it are those that the two others come to.
pub proof fn the_way_does_not_matter(
    t: Tree,
    sync: PendingSyncView,
    workspace: usize,
    inner: usize,
    window: usize,
    neighbor: usize,
    other: usize,
    first: Direction,
    last: Direction,
    context: MoveContext,
)
    requires
        nested(t, workspace, inner, seq![window, neighbor], other, last),
        TilingDirection::from_direction(first) != TilingDirection::from_direction(last),
        t.len() < MAX_CONTAINERS,
        t.len() < usize::MAX,
    ensures
        ({
            let one = two_steps(t, sync, window, first, last, context);
            let two = two_steps(t, sync, window, first.inverse(), last, context);
            &&& one.2 is Ok
            &&& two.2 is Ok
            &&& at_edge(one.0, workspace, window, last)
            &&& at_edge(two.0, workspace, window, last)
            &&& forall|length: int, horizontal: bool|
                tile_length(one.0, window, length, horizontal) == #[trigger] tile_length(
                    two.0,
                    window,
                    length,
                    horizontal,
                )
            &&& last.is_backward() ==> rect_of(one.0, window) == rect_of(two.0, window)
        }),
{
    let (away, across) = if first.is_backward() {
        (first.inverse(), first)
    } else {
        (first, first.inverse())
    };
    lemma_swaps(t, sync, workspace, inner, window, neighbor, other, away, last, context);
    lemma_swapped(t, workspace, inner, window, neighbor, other, last);
    let there = moved_tiling(t, sync, window, away, context);
    lemma_leaves(there.0, there.1, workspace, inner, window, neighbor, other, last, context);
    lemma_left_split(there.0, workspace, inner, window, neighbor, other, last);
    lemma_crossed_route(t, sync, workspace, inner, window, neighbor, other, across, last, context);
    let one = two_steps(t, sync, window, first, last, context);
    let two = two_steps(t, sync, window, first.inverse(), last, context);
    lemma_edge_rect(one.0, two.0, workspace, window, last);
    lemma_edge_rect(two.0, one.0, workspace, window, last);
}

} // verus!
