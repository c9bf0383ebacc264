//! A window that is stacked with its neighbor and then goes back leaves the row as it was.

use vstd::prelude::*;

use crate::frame_laws::{
    lemma_flattened_only, lemma_same_twice, lemma_shares_only, moving_changes_shares_only,
    same_but_shares, wrapping_changes_shares_only,
};
use crate::geometry::{Direction, TilingDirection};
use crate::layout::lemma_push_wf;
use crate::lists::{
    filtered, first_place, lemma_joined_contains, lemma_position, lemma_position_is,
    lemma_push_contains, lemma_shifted, lemma_without, lemma_without_at, position, shifted, spliced,
    without,
};
use crate::move_command::{
    moved_tiling, ready_to_move, stepped, tiling_step, MoveContext, TilingStep,
};
use crate::pending_sync::PendingSyncView;
use crate::placement::{available, share_pixels, tile_length, PIXEL_TOLERANCE};
use crate::shares::{
    clamped_target, cut, part, saturated, share_ok, spread, spread_weights, total, MAX_CONTAINERS,
    WHOLE,
};
use crate::split_ops::{
    is_redundant, redundant_flattened, splits_normalized, unstack_fraction, unstack_remembered,
};
use crate::stack_laws::{
    can_stack, in_column, lemma_all_tiles, lemma_first_under, lemma_in_column, lemma_noted,
    lemma_share_returns, lemma_stacked, unstacking_restores_shares,
};
use crate::traversal::{
    ancestors, descend, descendants, enclosing_fuel, lemma_descend_valid, of_kind, workspace_of,
};
use crate::tree::{
    as_split_shares, attached, detached, flattened, is_only_child_of_split, is_tile, joining_share,
    kind, linked, moved, resized, scaled, share_of, shares_of, tile_siblings, tiles, valid, wf,
    with_children, with_share, with_shares, wrapped, ContainerKind, Gaps, NodeData, Tree,
};
use crate::tree_laws::{
    are_tiles_of, attaching_keeps_tree, cut_out, cutting_out_keeps_tree, flattening_keeps_tree,
    focusing_keeps_tree, lemma_children, lemma_flattened, lemma_moved_within, lemma_parent_facts,
    lemma_same_links_wf, lemma_tile_siblings, lemma_tiles_same_kinds, lemma_with_parents,
    lemma_with_shares, lemma_wrapped, linking_keeps_tree, moving_keeps_tree, resizing_keeps_links,
    same_links, unlinking_keeps_tree,
};
use crate::walk_laws::descendants_are_complete;
use crate::whole_laws::{lemma_tiles_are, lemma_wrapped_shares};
use crate::window_laws::lemma_window_childless;
use crate::window_move::{
    first_along, first_under, lemma_new_split, moved_beside, moved_into_ancestor, row_restored,
    split_data, stack_order, stacked, stacked_with_neighbor, stacking_neighbor, unstacked_share,
    with_new_split,
};

verus! {

/// Whether no split among some containers is redundant.
pub open spec fn all_needed(t: Tree, ids: Seq<usize>) -> bool {
    forall|y: usize|
        #![trigger is_redundant(t, y)]
        ids.contains(y) && kind(t, y) == ContainerKind::Split ==> !is_redundant(t, y)
}

/// Whether no split on a workspace is redundant.
pub open spec fn is_normal(t: Tree, workspace: usize) -> bool {
    all_needed(t, descendants(t, workspace))
}

/// Whether a container is among some, or is a column that came in.
spec fn within(ids: Seq<usize>, column: usize, y: usize) -> bool {
    ids.contains(y) || y == column
}

/// A walk stays among some containers where their children do.
proof fn lemma_descend_within(
    u: Tree,
    starts: Seq<usize>,
    fuel: nat,
    ids: Seq<usize>,
    column: usize,
)
    requires
        forall|k: int| 0 <= k < starts.len() ==> within(ids, column, #[trigger] starts[k]),
        forall|y: usize, k: int|
            within(ids, column, y) && 0 <= k < u[y as int].children.len() ==> within(
                ids,
                column,
                #[trigger] u[y as int].children[k],
            ),
    ensures
        forall|y: usize| #[trigger]
            descend(u, starts, fuel).contains(y) ==> within(ids, column, y),
    decreases fuel, starts.len(),
{
    if starts.len() > 0 && fuel > 0 {
        let front = starts.drop_last();
        assert forall|k: int| 0 <= k < front.len() implies within(
            ids,
            column,
            #[trigger] front[k],
        ) by {
            assert(front[k] == starts[k]);
        }
        lemma_descend_within(u, front, fuel, ids, column);
        assert(within(ids, column, starts[starts.len() - 1]));
        let inner = u[starts.last() as int].children;
        assert forall|k: int| 0 <= k < inner.len() implies within(
            ids,
            column,
            #[trigger] inner[k],
        ) by {
            assert(within(ids, column, u[starts.last() as int].children[k]));
        }
        lemma_descend_within(u, inner, (fuel - 1) as nat, ids, column);
        let a = descend(u, front, fuel);
        let b = descend(u, inner, (fuel - 1) as nat);
        assert forall|y: usize| #[trigger] descend(u, starts, fuel).contains(y) implies within(
            ids,
            column,
            y,
        ) by {
            lemma_joined_contains(a.push(starts.last()), b, y);
            lemma_push_contains(a, starts.last(), y);
        }
    }
}

/// Where only a workspace and a column in it differ, the workspace holds what it held before, and
/// the column.
proof fn lemma_descendants_within(t: Tree, u: Tree, workspace: usize, column: usize)
    requires
        wf(t),
        valid(t, workspace),
        !valid(t, column),
        forall|i: int|
            0 <= i < t.len() && i != workspace ==> (#[trigger] u[i]).children == t[i].children,
        forall|k: int|
            0 <= k < u[workspace as int].children.len() ==> (
            #[trigger] u[workspace as int].children[k]) == column
                || t[workspace as int].children.contains(u[workspace as int].children[k]),
        forall|k: int|
            0 <= k < u[column as int].children.len() ==> t[workspace as int].children.contains(
                #[trigger] u[column as int].children[k],
            ),
    ensures
        forall|y: usize| #[trigger]
            descendants(u, workspace).contains(y) ==> within(descendants(t, workspace), column, y),
{
    let ids = descendants(t, workspace);
    let row = t[workspace as int].children;
    lemma_children(t, workspace);
    lemma_descend_valid(t, row, t.len());
    assert forall|y: usize| #[trigger] row.contains(y) implies ids.contains(y) by {
        let k = choose|k: int| 0 <= k < row.len() && row[k] == y;
        assert(valid(t, t[workspace as int].children[k]));
        descendants_are_complete(t, workspace, y);
    }
    assert forall|y: usize, k: int|
        within(ids, column, y) && 0 <= k < u[y as int].children.len() implies within(
        ids,
        column,
        #[trigger] u[y as int].children[k],
    ) by {
        if y != column && y != workspace {
            let j = choose|j: int| 0 <= j < ids.len() && ids[j] == y;
            assert(valid(t, descend(t, row, t.len())[j]));
            assert(u[y as int].children == t[y as int].children);
            let c = t[y as int].children[k];
            lemma_children(t, y);
            assert(valid(t, t[y as int].children[k]));
            descendants_are_complete(t, workspace, c);
        }
    }
    let starts = u[workspace as int].children;
    assert forall|k: int| 0 <= k < starts.len() implies within(
        ids,
        column,
        #[trigger] starts[k],
    ) by {
        assert(u[workspace as int].children[k] == column || row.contains(
            u[workspace as int].children[k],
        ));
    }
    lemma_descend_within(u, starts, u.len(), ids, column);
}

/// The containers of a kind are those of some that are of it.
pub proof fn lemma_of_kind_some(t: Tree, ids: Seq<usize>, wanted: ContainerKind)
    ensures
        of_kind(t, ids, wanted).len() <= ids.len(),
        forall|k: int|
            0 <= k < of_kind(t, ids, wanted).len() ==> ids.contains(
                #[trigger] of_kind(t, ids, wanted)[k],
            ) && kind(t, of_kind(t, ids, wanted)[k]) == wanted,
        forall|y: usize| #[trigger]
            ids.contains(y) && kind(t, y) == wanted ==> of_kind(t, ids, wanted).contains(y),
    decreases ids.len(),
{
    if ids.len() > 0 {
        let front = ids.drop_last();
        let some = of_kind(t, front, wanted);
        let all = of_kind(t, ids, wanted);
        lemma_of_kind_some(t, front, wanted);
        assert forall|k: int| 0 <= k < all.len() implies ids.contains(#[trigger] all[k]) && kind(
            t,
            all[k],
        ) == wanted by {
            if k < some.len() {
                assert(all[k] == some[k]);
                let j = choose|j: int| 0 <= j < front.len() && front[j] == some[k];
                assert(ids[j] == all[k]);
            } else {
                assert(ids[ids.len() - 1] == all[k]);
            }
        }
        assert forall|y: usize| #[trigger]
            ids.contains(y) && kind(t, y) == wanted implies all.contains(y) by {
            let i = choose|i: int| 0 <= i < ids.len() && ids[i] == y;
            if i < ids.len() - 1 {
                assert(front[i] == y);
                assert(front.contains(y));
                let j = choose|j: int| 0 <= j < some.len() && some[j] == y;
                assert(all[j] == y);
            } else {
                assert(all[all.len() - 1] == y);
            }
        }
    }
}

/// What starts a walk is met on it.
proof fn lemma_descend_starts(t: Tree, ids: Seq<usize>, fuel: nat, y: usize)
    requires
        ids.contains(y),
        fuel > 0,
    ensures
        descend(t, ids, fuel).contains(y),
    decreases ids.len(),
{
    let i = choose|i: int| 0 <= i < ids.len() && ids[i] == y;
    let front = ids.drop_last();
    let a = descend(t, front, fuel).push(ids.last());
    let all = descend(t, ids, fuel);
    if i < ids.len() - 1 {
        assert(front[i] == y);
        lemma_descend_starts(t, front, fuel, y);
        let j = choose|j: int| 0 <= j < descend(t, front, fuel).len() && descend(t, front, fuel)[j]
            == y;
        assert(all[j] == y);
    } else {
        assert(all[a.len() - 1] == y);
    }
}

/// Where no split is redundant nothing is flattened.
pub proof fn lemma_none_redundant(t: Tree, splits: Seq<usize>)
    requires
        forall|k: int| 0 <= k < splits.len() ==> !is_redundant(t, #[trigger] splits[k]),
    ensures
        redundant_flattened(t, splits) == t,
    decreases splits.len(),
{
    if splits.len() > 0 {
        let front = splits.drop_last();
        assert forall|k: int| 0 <= k < front.len() implies !is_redundant(
            t,
            #[trigger] front[k],
        ) by {
            assert(front[k] == splits[k]);
        }
        assert(!is_redundant(t, splits[splits.len() - 1]));
        lemma_none_redundant(t, front);
    }
}

/// Where one split is redundant it is flattened, and that is all.
pub proof fn lemma_one_redundant(t: Tree, splits: Seq<usize>, column: usize)
    requires
        splits.contains(column),
        is_redundant(t, column),
        forall|k: int|
            0 <= k < splits.len() ==> {
                let y = #[trigger] splits[k];
                &&& !is_redundant(flattened(t, column), y)
                &&& y != column ==> !is_redundant(t, y)
            },
    ensures
        redundant_flattened(t, splits) == flattened(t, column),
    decreases splits.len(),
{
    let front = splits.drop_last();
    let i = choose|i: int| 0 <= i < splits.len() && splits[i] == column;
    assert forall|k: int| 0 <= k < front.len() implies {
        let y = #[trigger] front[k];
        &&& !is_redundant(flattened(t, column), y)
        &&& y != column ==> !is_redundant(t, y)
    } by {
        assert(front[k] == splits[k]);
    }
    if splits[splits.len() - 1] == column {
        lemma_none_redundant(flattened(t, column), front);
    } else {
        assert(front[i] == column);
        assert(!is_redundant(t, splits[splits.len() - 1]));
        lemma_one_redundant(t, front, column);
    }
}

/// The splits on a workspace.
proof fn lemma_splits_of(t: Tree, workspace: usize)
    requires
        wf(t),
        valid(t, workspace),
    ensures
        ({
            let splits = of_kind(t, descendants(t, workspace), ContainerKind::Split);
            &&& forall|k: int|
                0 <= k < splits.len() ==> descendants(t, workspace).contains(#[trigger] splits[k])
                    && kind(t, splits[k]) == ContainerKind::Split
            &&& forall|y: usize| #[trigger]
                t[workspace as int].children.contains(y) && kind(t, y) == ContainerKind::Split
                    ==> splits.contains(y)
        }),
{
    let all = descendants(t, workspace);
    lemma_of_kind_some(t, all, ContainerKind::Split);
    let splits = of_kind(t, all, ContainerKind::Split);
    assert forall|y: usize| #[trigger]
        t[workspace as int].children.contains(y) && kind(t, y)
            == ContainerKind::Split implies splits.contains(y) by {
        lemma_descend_starts(t, t[workspace as int].children, t.len(), y);
    }
}

/// A workspace without redundant splits stays as it is.
pub proof fn normal_layouts_stay(t: Tree, workspace: usize)
    requires
        wf(t),
        valid(t, workspace),
        is_normal(t, workspace),
    ensures
        splits_normalized(t, workspace) == t,
{
    lemma_splits_of(t, workspace);
    let splits = of_kind(t, descendants(t, workspace), ContainerKind::Split);
    assert forall|k: int| 0 <= k < splits.len() implies !is_redundant(t, #[trigger] splits[k]) by {
        assert(descendants(t, workspace).contains(splits[k]));
    }
    lemma_none_redundant(t, splits);
}

pub proof fn lemma_filtered_join(a: Seq<usize>, b: Seq<usize>, keep: Seq<usize>)
    ensures
        filtered(a + b, keep, false) == filtered(a, keep, false) + filtered(b, keep, false),
    decreases b.len(),
{
    if b.len() == 0 {
        assert(a + b =~= a);
        assert(filtered(b, keep, false) =~= Seq::<usize>::empty());
    } else {
        assert((a + b).drop_last() =~= a + b.drop_last());
        lemma_filtered_join(a, b.drop_last(), keep);
    }
    assert(filtered(a + b, keep, false) =~= filtered(a, keep, false) + filtered(b, keep, false));
}

pub proof fn lemma_filtered_all(s: Seq<usize>, keep: Seq<usize>)
    requires
        forall|k: int| 0 <= k < s.len() ==> !keep.contains(#[trigger] s[k]),
    ensures
        filtered(s, keep, false) == s,
    decreases s.len(),
{
    if s.len() > 0 {
        let front = s.drop_last();
        assert forall|k: int| 0 <= k < front.len() implies !keep.contains(#[trigger] front[k]) by {
            assert(front[k] == s[k]);
        }
        lemma_filtered_all(front, keep);
        assert(!keep.contains(s[s.len() - 1]));
        assert(s =~= front.push(s.last()));
    }
}

/// Two neighbors of a row give way to their column.
pub proof fn lemma_column_in_row(row: Seq<usize>, first: int, ids: Seq<usize>, column: usize)
    requires
        row.no_duplicates(),
        0 <= first < row.len() - 1,
        ids == seq![row[first], row[first + 1]] || ids == seq![row[first + 1], row[first]],
        !row.contains(column),
    ensures
        filtered(row.insert(first_place(row, ids), column), ids, false) == row.take(first).push(
            column,
        ) + row.skip(first + 2),
{
    lemma_position_is(row, row[first], first);
    lemma_position_is(row, row[first + 1], first + 1);
    assert(first_place(row, ids) == first) by {
        reveal_with_fuel(first_place, 3);
        assert(ids.drop_last() =~= seq![ids[0]]);
        assert(seq![ids[0]].drop_last() =~= Seq::<usize>::empty());
    }
    let before = row.take(first).push(column);
    let pair = seq![row[first], row[first + 1]];
    let after = row.skip(first + 2);
    assert(row.insert(first, column) =~= (before + pair) + after);
    lemma_filtered_join(before + pair, after, ids);
    lemma_filtered_join(before, pair, ids);
    assert forall|k: int| 0 <= k < before.len() implies !ids.contains(#[trigger] before[k]) by {
        if ids.contains(before[k]) {
            let j = choose|j: int| 0 <= j < ids.len() && ids[j] == before[k];
            assert(j == 0 || j == 1);
            if k < first {
                assert(row[k] == before[k]);
            } else {
                assert(row.contains(row[first]) && row.contains(row[first + 1]));
            }
        }
    }
    lemma_filtered_all(before, ids);
    assert forall|k: int| 0 <= k < after.len() implies !ids.contains(#[trigger] after[k]) by {
        if ids.contains(after[k]) {
            let j = choose|j: int| 0 <= j < ids.len() && ids[j] == after[k];
            assert(j == 0 || j == 1);
            assert(row[k + first + 2] == after[k]);
        }
    }
    lemma_filtered_all(after, ids);
    assert(filtered(pair, ids, false) =~= Seq::<usize>::empty()) by {
        reveal_with_fuel(filtered, 3);
        assert(ids[0] == row[first] || ids[1] == row[first]);
        assert(ids[0] == row[first + 1] || ids[1] == row[first + 1]);
        assert(ids.contains(row[first]) && ids.contains(row[first + 1]));
        assert(pair.drop_last() =~= seq![row[first]]);
        assert(seq![row[first]].drop_last() =~= Seq::<usize>::empty());
    }
    assert(before + filtered(pair, ids, false) =~= before);
}

/// Whether a window stands in a row of tiles on a workspace, next to the neighbor that it is
/// stacked with: the one that follows it or, at the end of the row, the one before it.
pub open spec fn beside(
    t: Tree,
    workspace: usize,
    window: usize,
    neighbor: usize,
    follows: bool,
) -> bool {
    let row = t[workspace as int].children;
    let place = position(row, window);
    &&& wf(t)
    &&& is_normal(t, workspace)
    &&& valid(t, workspace)
    &&& kind(t, workspace) == ContainerKind::Workspace
    &&& t[workspace as int].data.tiling_direction == TilingDirection::Horizontal
    &&& row.len() >= 3
    &&& row.contains(window)
    &&& forall|k: int| 0 <= k < row.len() ==> is_tile(t, #[trigger] row[k])
    &&& kind(t, window) == ContainerKind::TilingWindow
    &&& follows ==> place < row.len() - 1 && row[place + 1] == neighbor
    &&& !follows ==> place == row.len() - 1 && row[place - 1] == neighbor
    &&& 0 < share_of(t, window)
    &&& 0 < share_of(t, neighbor)
    &&& share_of(t, window) + share_of(t, neighbor) <= WHOLE
}

/// The place of the first of the two in the row.
pub open spec fn pair_place(t: Tree, workspace: usize, window: usize, follows: bool) -> int {
    let place = position(t[workspace as int].children, window);
    if follows {
        place
    } else {
        place - 1
    }
}

/// What is known of a row of tiles.
proof fn lemma_row(t: Tree, workspace: usize, window: usize, neighbor: usize, follows: bool)
    requires
        beside(t, workspace, window, neighbor, follows),
    ensures
        ({
            let row = t[workspace as int].children;
            let first = pair_place(t, workspace, window, follows);
            &&& valid(t, window)
            &&& valid(t, neighbor)
            &&& is_tile(t, neighbor)
            &&& window != neighbor
            &&& workspace != window && workspace != neighbor
            &&& t[window as int].parent == Some(workspace)
            &&& t[neighbor as int].parent == Some(workspace)
            &&& t[window as int].children.len() == 0
            &&& tiles(t, workspace) == row
            &&& row.no_duplicates()
            &&& 0 <= first < row.len() - 1
            &&& row[first] == (if follows {
                window
            } else {
                neighbor
            })
            &&& row[first + 1] == (if follows {
                neighbor
            } else {
                window
            })
        }),
{
    let row = t[workspace as int].children;
    lemma_children(t, workspace);
    assert(t[workspace as int].children.no_duplicates());
    lemma_all_tiles(t, row);
    lemma_position(row, window);
    let first = pair_place(t, workspace, window, follows);
    assert(valid(t, t[workspace as int].children[first]));
    assert(valid(t, t[workspace as int].children[first + 1]));
    assert(is_tile(t, row[first]) && is_tile(t, row[first + 1]));
    lemma_window_childless(t, window);
}

/// A step that stacks a window with its neighbor.
proof fn lemma_steps_stack(
    t: Tree,
    sync: PendingSyncView,
    window: usize,
    direction: Direction,
    context: MoveContext,
)
    requires
        tiling_step(t, window, direction) == TilingStep::Stack,
    ensures
        stepped(t, sync, window, direction, context) == stacked_with_neighbor(
            t,
            sync,
            window,
            direction,
            context.gaps,
        ),
{
    reveal(stepped);
}

/// A step that takes a window out of the containers below another.
pub proof fn lemma_steps_out(
    t: Tree,
    sync: PendingSyncView,
    window: usize,
    ancestor: usize,
    direction: Direction,
    context: MoveContext,
)
    requires
        tiling_step(t, window, direction) == TilingStep::IntoAncestor(ancestor),
    ensures
        stepped(t, sync, window, direction, context) == moved_into_ancestor(
            t,
            sync,
            window,
            ancestor,
            direction,
        ),
{
    reveal(stepped);
}

/// The first step of the trip: the window is stacked with its neighbor.
proof fn lemma_first_step(
    t: Tree,
    sync: PendingSyncView,
    workspace: usize,
    window: usize,
    neighbor: usize,
    follows: bool,
    up_or_down: Direction,
    context: MoveContext,
)
    requires
        beside(t, workspace, window, neighbor, follows),
        up_or_down.is_vertical(),
        t.len() < MAX_CONTAINERS,
        t.len() < usize::MAX,
    ensures
        workspace_of(t, window) == Some(workspace),
        moved_tiling(t, sync, window, up_or_down, context).0 == stacked(
            t,
            window,
            neighbor,
            up_or_down,
            context.gaps,
        ),
        moved_tiling(t, sync, window, up_or_down, context).2 is Ok,
{
    lemma_row(t, workspace, window, neighbor, follows);
    normal_layouts_stay(t, workspace);
    assert(t.len() > 0);
    assert(enclosing_fuel(t, workspace, ContainerKind::Workspace, (t.len() - 1) as nat) == Some(
        workspace,
    ));
    assert(ready_to_move(t, window, workspace) == t);
    let row = t[workspace as int].children;
    let after = row.skip(position(row, window) + 1);
    let before = row.take(position(row, window));
    assert forall|k: int| 0 <= k < after.len() implies is_tile(t, #[trigger] after[k]) by {
        assert(is_tile(t, row[k + position(row, window) + 1]));
    }
    assert forall|k: int| 0 <= k < before.len() implies is_tile(t, #[trigger] before[k]) by {
        assert(is_tile(t, row[k]));
    }
    lemma_all_tiles(t, after);
    lemma_all_tiles(t, before);
    assert(stacking_neighbor(t, window) == Some(neighbor));
    assert(tiling_step(t, window, up_or_down) == TilingStep::Stack);
    lemma_steps_stack(t, sync, window, up_or_down, context);
}

/// Whether a window and its neighbor stand in a column of their own, where all else is as it was.
pub open spec fn in_own_column(
    t: Tree,
    v: Tree,
    workspace: usize,
    window: usize,
    neighbor: usize,
    follows: bool,
) -> bool {
    let row = t[workspace as int].children;
    let first = pair_place(t, workspace, window, follows);
    let column = t.len() as usize;
    &&& wf(v)
    &&& v.len() == t.len() + 1
    &&& same_but_shares(t, v)
    &&& v[workspace as int].children == row.take(first).push(column) + row.skip(first + 2)
    &&& v[workspace as int].parent == t[workspace as int].parent
    &&& v[workspace as int].unstack == t[workspace as int].unstack
    &&& v[column as int].parent == Some(workspace)
    &&& kind(v, column) == ContainerKind::Split
    &&& v[column as int].data.tiling_direction == TilingDirection::Vertical
    &&& v[column as int].children.len() == 2
    &&& v[column as int].children.contains(window)
    &&& v[column as int].children.contains(neighbor)
    &&& unstack_fraction(v, column, neighbor) is Some
    &&& v[window as int].parent == Some(column)
    &&& v[neighbor as int].parent == Some(column)
    &&& v[window as int].children == t[window as int].children
    &&& v[neighbor as int].children == t[neighbor as int].children
    &&& v[window as int].unstack == t[window as int].unstack
    &&& v[neighbor as int].unstack == t[neighbor as int].unstack
    &&& forall|i: int|
        0 <= i < t.len() && i != workspace && i != window && i != neighbor ==> #[trigger] v[i]
            == t[i]
}

/// The column before its tiles are halved.
#[verifier::spinoff_prover]
#[verifier::rlimit(60)]
proof fn lemma_column(
    t: Tree,
    workspace: usize,
    window: usize,
    neighbor: usize,
    follows: bool,
    direction: Direction,
    gaps: Gaps,
)
    requires
        beside(t, workspace, window, neighbor, follows),
        can_stack(t, window, neighbor),
    ensures
        ({
            let r = in_column(t, window, neighbor, direction, gaps);
            let column = t.len() as usize;
            &&& in_own_column(t, r, workspace, window, neighbor, follows)
            &&& r[column as int].children == stack_order(window, neighbor, direction)
            &&& share_of(r, window) + share_of(r, neighbor) == WHOLE
            &&& 0 <= share_of(r, window) <= WHOLE + 1
        }),
{
    let column = t.len() as usize;
    let ids = stack_order(window, neighbor, direction);
    let n = with_new_split(t, TilingDirection::Vertical, gaps);
    lemma_row(t, workspace, window, neighbor, follows);
    lemma_in_column(t, window, neighbor, direction, gaps);
    lemma_push_wf(t, split_data(TilingDirection::Vertical, gaps));
    lemma_new_split(t, TilingDirection::Vertical, gaps, workspace);
    lemma_tiles_are(t, workspace);
    assert(ids.no_duplicates());
    assert(tiles(t, workspace).contains(window) && tiles(t, workspace).contains(neighbor));
    assert(are_tiles_of(n, ids, workspace)) by {
        assert forall|j: int| 0 <= j < ids.len() implies tiles(n, workspace).contains(
            #[trigger] ids[j],
        ) by {
            assert(tiles(t, workspace).contains(ids[j]));
        }
    }
    lemma_wrapped(n, column, workspace, ids);
    wrapping_changes_shares_only(n, column, workspace, ids);
    let w = wrapped(n, column, workspace, ids);
    let row = t[workspace as int].children;
    let first = pair_place(t, workspace, window, follows);
    assert(!row.contains(column)) by {
        if row.contains(column) {
            assert(tiles(t, workspace).contains(column));
        }
    }
    lemma_column_in_row(row, first, ids, column);
    assert(ids.contains(window)) by {
        assert(ids[0] == window || ids[1] == window);
    }
    assert(ids.contains(neighbor)) by {
        assert(ids[0] == neighbor || ids[1] == neighbor);
    }
    let shares = shares_of(t, ids);
    assert(shares_of(n, ids) =~= shares);
    lemma_share_returns(shares, 0);
    lemma_share_returns(shares, 1);
    lemma_wrapped_shares(n, column, workspace, ids, 0);
    lemma_wrapped_shares(n, column, workspace, ids, 1);
    assert(as_split_shares(shares)[0] + as_split_shares(shares)[1] == WHOLE) by {
        assert(shares.take(2) =~= shares);
        assert(shares.take(0) =~= Seq::<i64>::empty());
        let all = total(shares);
        assert((WHOLE * all) / all == WHOLE) by (nonlinear_arith)
            requires
                all > 0,
        ;
        assert((WHOLE * 0) / all == 0) by (nonlinear_arith)
            requires
                all > 0,
        ;
        assert(cut(WHOLE as int, shares, 2) == WHOLE);
        assert(cut(WHOLE as int, shares, 0) == 0);
    }
    let r = in_column(t, window, neighbor, direction, gaps);
    assert(r == unstack_remembered(w, column));
    lemma_all_tiles(w, ids);
    assert(tiles(w, column) == ids);
    lemma_position(ids, neighbor);
    lemma_noted(ids, shares_of(w, ids), position(ids, neighbor));
    assert(same_but_shares(t, r)) by {
        assert forall|i: int| 0 <= i < t.len() implies (NodeData {
            tiling_size: t[i].data.tiling_size,
            ..(#[trigger] r[i]).data
        }) == t[i].data by {
            assert(n[i] == t[i]);
            assert(r[i].data == w[i].data);
        }
    }
    assert forall|i: int|
        0 <= i < t.len() && i != workspace && i != window && i != neighbor implies #[trigger] r[i]
        == t[i] by {
        assert(!ids.contains(i as usize)) by {
            if ids.contains(i as usize) {
                let j = choose|j: int| 0 <= j < ids.len() && ids[j] == i as usize;
                assert(j == 0 || j == 1);
            }
        }
        assert(w[i] == n[i]);
        assert(n[i] == t[i]);
    }
    assert(n[window as int] == t[window as int]);
    assert(n[neighbor as int] == t[neighbor as int]);
    assert(n[workspace as int] == t[workspace as int]);
}

/// One tile takes all of a change.
proof fn lemma_spread_alone(share: i64, amount: int)
    requires
        -WHOLE <= amount <= WHOLE,
        -WHOLE <= share <= 2 * WHOLE,
    ensures
        spread(seq![share], amount) == seq![(share - amount) as i64],
{
    let shares = seq![share];
    let weights = spread_weights(shares);
    assert(weights.len() == 1);
    reveal_with_fuel(total, 2);
    assert(weights.take(1) =~= weights);
    assert(weights.take(0) =~= Seq::<i64>::empty());
    let all = total(weights);
    assert(weights.drop_last() =~= Seq::<i64>::empty());
    assert(all == weights[0]);
    assert(all > 0);
    assert((amount * all) / all == amount) by (nonlinear_arith)
        requires
            all > 0,
    ;
    assert((amount * 0) / all == 0) by (nonlinear_arith)
        requires
            all > 0,
    ;
    assert(part(amount, weights, 0) == amount);
    assert(spread(shares, amount) =~= seq![(share - amount) as i64]);
}

/// What the first step leaves: a column with the two, each with one half of it.
#[verifier::spinoff_prover]
#[verifier::rlimit(60)]
proof fn lemma_there(
    t: Tree,
    workspace: usize,
    window: usize,
    neighbor: usize,
    follows: bool,
    direction: Direction,
    gaps: Gaps,
)
    requires
        beside(t, workspace, window, neighbor, follows),
        can_stack(t, window, neighbor),
    ensures
        ({
            let v = stacked(t, window, neighbor, direction, gaps);
            &&& in_own_column(t, v, workspace, window, neighbor, follows)
            &&& direction == Direction::Up ==> v[t.len() as int].children == seq![window, neighbor]
            &&& direction == Direction::Down ==> v[t.len() as int].children == seq![
                neighbor,
                window,
            ]
            &&& share_of(v, window) == WHOLE / 2
            &&& share_of(v, neighbor) == WHOLE / 2
        }),
{
    reveal(stacked);
    let column = t.len() as usize;
    let ids = stack_order(window, neighbor, direction);
    let r = in_column(t, window, neighbor, direction, gaps);
    lemma_row(t, workspace, window, neighbor, follows);
    lemma_column(t, workspace, window, neighbor, follows, direction, gaps);
    lemma_stacked(t, window, neighbor, direction, gaps);
    lemma_all_tiles(r, ids);
    assert(tiles(r, column) == ids);
    let k: int = if direction == Direction::Up {
        0
    } else {
        1
    };
    assert(ids[k] == window && ids[1 - k] == neighbor);
    lemma_without_at(ids, window, k);
    assert(tile_siblings(r, window) =~= seq![neighbor]);
    let half = (WHOLE as int) / 2;
    let h = resized(r, window, half);
    assert(shares_of(r, seq![neighbor]) =~= seq![share_of(r, neighbor)]);
    lemma_spread_alone(share_of(r, neighbor), half - share_of(r, window));
    assert(h == with_share(with_share(r, window, half as i64), neighbor, half as i64)) by {
        reveal_with_fuel(with_shares, 2);
        assert(seq![neighbor].drop_last() =~= Seq::<usize>::empty());
    }
    resizing_keeps_links(r, window, half);
    let place = position(ids, window);
    lemma_position(ids, window);
    lemma_shifted(ids, window, place);
    let v = stacked(t, window, neighbor, direction, gaps);
    lemma_moved_within(h, window, column, place);
    assert(v == with_children(h, column, shifted(ids, window, place)));
    lemma_position_is(ids, window, k);
    assert(shifted(ids, window, place) =~= ids);
    assert(ids.contains(window) && ids.contains(neighbor)) by {
        assert(ids[k] == window && ids[1 - k] == neighbor);
    }
    assert(shifted(ids, window, place).contains(window));
    assert(shifted(ids, window, place).contains(neighbor));
    assert(same_but_shares(t, v)) by {
        assert forall|i: int| 0 <= i < t.len() implies (NodeData {
            tiling_size: t[i].data.tiling_size,
            ..(#[trigger] v[i]).data
        }) == t[i].data by {
            assert((NodeData {
                tiling_size: t[i].data.tiling_size,
                ..r[i].data
            }) == t[i].data);
        }
    }
    assert forall|i: int|
        0 <= i < t.len() && i != workspace && i != window && i != neighbor implies #[trigger] v[i]
        == t[i] by {
        assert(r[i] == t[i]);
    }
}

/// The column is not redundant, and nothing else has become so.
#[verifier::spinoff_prover]
proof fn lemma_column_is_normal(
    t: Tree,
    v: Tree,
    workspace: usize,
    window: usize,
    neighbor: usize,
    follows: bool,
)
    requires
        beside(t, workspace, window, neighbor, follows),
        in_own_column(t, v, workspace, window, neighbor, follows),
        t.len() < usize::MAX,
    ensures
        is_normal(v, workspace),
{
    let column = t.len() as usize;
    let row = t[workspace as int].children;
    let first = pair_place(t, workspace, window, follows);
    lemma_row(t, workspace, window, neighbor, follows);
    lemma_kinds(t, v);
    assert forall|k: int| 0 <= k < v[workspace as int].children.len() implies (
    #[trigger] v[workspace as int].children[k]) == column || row.contains(
        v[workspace as int].children[k],
    ) by {
        if k < first {
            assert(v[workspace as int].children[k] == row[k]);
        } else if k > first {
            assert(v[workspace as int].children[k] == row[k + 1]);
        }
    }
    lemma_two_kids(v[column as int].children, window, neighbor);
    assert(row[first] == window || row[first + 1] == window);
    assert(row[first] == neighbor || row[first + 1] == neighbor);
    assert(row.contains(window) && row.contains(neighbor));
    lemma_descendants_within(t, v, workspace, column);
    lemma_children(t, workspace);
    lemma_descend_valid(t, row, t.len());
    assert forall|y: usize|
        #![trigger is_redundant(v, y)]
        descendants(v, workspace).contains(y) && kind(v, y)
            == ContainerKind::Split implies !is_redundant(v, y) by {
        assert(within(descendants(t, workspace), column, y));
        if y != column {
            lemma_is_valid(t, workspace, y);
            assert(kind(t, y) == kind(v, y)) by {
                assert(v[y as int] == v[y as int]);
            }
            assert(!is_redundant(t, y));
            if y == neighbor {
                assert(t[y as int].parent == Some(workspace));
            } else {
                assert(v[y as int] == t[y as int]);
                if let Some(p) = t[y as int].parent {
                    lemma_parent_facts(t, y);
                    assert(kind(v, p) == kind(t, p));
                    assert(v[p as int].unstack == t[p as int].unstack);
                }
            }
        }
    }
}

/// Two children are the two that are known.
proof fn lemma_two_kids(kids: Seq<usize>, a: usize, b: usize)
    requires
        kids.len() == 2,
        kids.contains(a),
        kids.contains(b),
        a != b,
    ensures
        forall|k: int| 0 <= k < kids.len() ==> #[trigger] kids[k] == a || kids[k] == b,
{
    let i = choose|i: int| 0 <= i < kids.len() && kids[i] == a;
    let j = choose|j: int| 0 <= j < kids.len() && kids[j] == b;
    assert(i == 0 && j == 1 || i == 1 && j == 0);
}

/// What a workspace holds is in the tree.
proof fn lemma_is_valid(t: Tree, workspace: usize, y: usize)
    requires
        wf(t),
        valid(t, workspace),
        descendants(t, workspace).contains(y),
    ensures
        valid(t, y),
{
    let row = t[workspace as int].children;
    lemma_children(t, workspace);
    lemma_descend_valid(t, row, t.len());
    let ids = descendants(t, workspace);
    let j = choose|j: int| 0 <= j < ids.len() && ids[j] == y;
    assert(valid(t, descend(t, row, t.len())[j]));
}

/// Where all but shares is the same, kinds and directions are.
pub proof fn lemma_kinds(t: Tree, u: Tree)
    requires
        same_but_shares(t, u),
    ensures
        forall|y: usize|
            #![trigger u[y as int]]
            valid(t, y) ==> kind(u, y) == kind(t, y) && u[y as int].data.tiling_direction
                == t[y as int].data.tiling_direction,
{
    assert forall|y: usize|
        #![trigger u[y as int]]
        valid(t, y) implies kind(u, y) == kind(t, y) && u[y as int].data.tiling_direction
        == t[y as int].data.tiling_direction by {
        assert((NodeData { tiling_size: t[y as int].data.tiling_size, ..u[y as int].data })
            == t[y as int].data);
    }
}

pub proof fn lemma_first_along(t: Tree, containers: Seq<usize>, axis: TilingDirection)
    requires
        containers.len() > 0,
        kind(t, containers[0]).is_direction(),
        t[containers[0] as int].data.tiling_direction == axis,
    ensures
        first_along(t, containers, axis) == Some(containers[0]),
    decreases containers.len(),
{
    let front = containers.drop_last();
    if front.len() > 0 {
        assert(front[0] == containers[0]);
        lemma_first_along(t, front, axis);
    } else {
        assert(first_along(t, front, axis) is None);
    }
}

/// The direction in which the window goes back to its place.
pub open spec fn way_back(follows: bool) -> Direction {
    if follows {
        Direction::Left
    } else {
        Direction::Right
    }
}

/// The second step of the trip: the window leaves the column for the row.
#[verifier::spinoff_prover]
proof fn lemma_second_step(
    t: Tree,
    v: Tree,
    sync: PendingSyncView,
    workspace: usize,
    window: usize,
    neighbor: usize,
    follows: bool,
    context: MoveContext,
)
    requires
        beside(t, workspace, window, neighbor, follows),
        in_own_column(t, v, workspace, window, neighbor, follows),
        t.len() < usize::MAX,
    ensures
        workspace_of(v, window) == Some(workspace),
        moved_tiling(v, sync, window, way_back(follows), context) == moved_into_ancestor(
            v,
            sync,
            window,
            workspace,
            way_back(follows),
        ),
        first_under(v, ancestors(v, window), workspace) == Some(t.len() as usize),
{
    let column = t.len() as usize;
    let back = way_back(follows);
    lemma_row(t, workspace, window, neighbor, follows);
    lemma_kinds(t, v);
    lemma_column_is_normal(t, v, workspace, window, neighbor, follows);
    normal_layouts_stay(v, workspace);
    assert(v.len() > 2) by {
        lemma_children(t, workspace);
    }
    assert(enclosing_fuel(v, workspace, ContainerKind::Workspace, (v.len() - 2) as nat) == Some(
        workspace,
    ));
    assert(enclosing_fuel(v, column, ContainerKind::Workspace, (v.len() - 1) as nat) == Some(
        workspace,
    ));
    assert(workspace_of(v, window) == Some(workspace));
    assert(!is_only_child_of_split(v, window));
    assert(ready_to_move(v, window, workspace) == v);
    assert(ancestors(v, column)[0] == workspace);
    lemma_first_along(v, ancestors(v, column), TilingDirection::Horizontal);
    assert(TilingDirection::from_direction(back) == TilingDirection::Horizontal);
    assert(tiling_step(v, window, back) == TilingStep::IntoAncestor(workspace));
    lemma_steps_out(v, sync, window, workspace, back, context);
    assert(ancestors(v, window)[0] == column);
    lemma_first_under(v, ancestors(v, window), workspace);
}

/// What putting a tile into a container leaves alone.
#[verifier::spinoff_prover]
pub proof fn lemma_attached_rest(t: Tree, id: usize, parent: usize, index: int)
    requires
        wf(t),
        valid(t, id),
        valid(t, parent),
        id != parent,
        is_tile(t, id),
        t[id as int].parent is None,
        t[id as int].children.len() == 0,
        kind(t, parent).holds(kind(t, id)),
        0 <= index <= t[parent as int].children.len(),
    ensures
        attached(t, id, parent, index).len() == t.len(),
        forall|i: int|
            0 <= i < t.len() ==> (#[trigger] attached(t, id, parent, index)[i]).unstack
                == t[i].unstack,
        forall|i: int|
            0 <= i < t.len() && i != id && t[i].parent != Some(parent) ==> (#[trigger] attached(
                t,
                id,
                parent,
                index,
            )[i]).data == t[i].data,
{
    let l = with_share(linked(t, id, parent, index), id, 0);
    let a = attached(t, id, parent, index);
    linking_keeps_tree(t, id, parent, index);
    assert forall|i: int| 0 <= i < l.len() implies share_ok(
        #[trigger] l[i].data.tiling_size as int,
    ) by {
        assert(share_ok(linked(t, id, parent, index)[i].data.tiling_size as int));
    }
    lemma_same_links_wf(linked(t, id, parent, index), l);
    let siblings = tile_siblings(linked(t, id, parent, index), id);
    assert(tile_siblings(l, id) == siblings) by {
        lemma_tiles_same_kinds(linked(t, id, parent, index), l, l[parent as int].children);
    }
    let target = joining_share(siblings.len());
    resizing_keeps_links(l, id, target);
    lemma_tile_siblings(l, id);
    if siblings.len() > 0 {
        let share = clamped_target(target, siblings.len());
        let s = with_share(l, id, share as i64);
        assert forall|k: int| 0 <= k < siblings.len() implies valid(s, #[trigger] siblings[k]) by {
            assert(valid(l, tile_siblings(l, id)[k]));
        }
        lemma_with_shares(s, siblings, spread(shares_of(l, siblings), share - share_of(l, id)));
    }
    assert forall|i: int| 0 <= i < t.len() && i != id && t[i].parent != Some(parent) implies (
    #[trigger] a[i]).data == t[i].data by {
        if siblings.contains(i as usize) {
            let j = choose|j: int| 0 <= j < siblings.len() && siblings[j] == i as usize;
            assert(l[tile_siblings(l, id)[j] as int].parent == l[id as int].parent);
        }
        assert(a[i] == l[i]);
    }
}

/// Whether a window stands in the row again, next to the column that its neighbor is alone in.
pub open spec fn next_to_column(
    t: Tree,
    u: Tree,
    workspace: usize,
    window: usize,
    neighbor: usize,
    follows: bool,
) -> bool {
    let row = t[workspace as int].children;
    let first = pair_place(t, workspace, window, follows);
    let column = t.len() as usize;
    &&& wf(u)
    &&& u.len() == t.len() + 1
    &&& same_but_shares(t, u)
    &&& u[workspace as int].children == (if follows {
        row.take(first).push(window).push(column) + row.skip(first + 2)
    } else {
        row.take(first).push(column).push(window)
    })
    &&& u[workspace as int].parent == t[workspace as int].parent
    &&& u[workspace as int].unstack == t[workspace as int].unstack
    &&& u[column as int].parent == Some(workspace)
    &&& kind(u, column) == ContainerKind::Split
    &&& u[column as int].data.tiling_direction == TilingDirection::Vertical
    &&& u[column as int].children == seq![neighbor]
    &&& unstack_fraction(u, column, neighbor) is Some
    &&& u[window as int].parent == Some(workspace)
    &&& u[neighbor as int].parent == Some(column)
    &&& share_of(u, neighbor) == WHOLE
    &&& u[window as int].children == t[window as int].children
    &&& u[neighbor as int].children == t[neighbor as int].children
    &&& u[window as int].unstack == t[window as int].unstack
    &&& u[neighbor as int].unstack == t[neighbor as int].unstack
    &&& forall|i: int|
        0 <= i < t.len() && i != workspace && i != window && i != neighbor ==> (
        #[trigger] u[i]).parent == t[i].parent && u[i].children == t[i].children && u[i].unstack
            == t[i].unstack
}

/// Taking the window out of the column.
#[verifier::spinoff_prover]
#[verifier::rlimit(60)]
proof fn lemma_taken_out(
    t: Tree,
    v: Tree,
    workspace: usize,
    window: usize,
    neighbor: usize,
    follows: bool,
)
    requires
        beside(t, workspace, window, neighbor, follows),
        in_own_column(t, v, workspace, window, neighbor, follows),
        t.len() < usize::MAX,
        share_of(v, window) == WHOLE / 2,
        share_of(v, neighbor) == WHOLE / 2,
    ensures
        detached(v, window) == with_share(cut_out(v, window), neighbor, WHOLE),
        without(v[t.len() as int].children, window) == seq![neighbor],
        wf(detached(v, window)),
{
    let column = t.len() as usize;
    lemma_row(t, workspace, window, neighbor, follows);
    lemma_kinds(t, v);
    let kids = without(v[column as int].children, window);
    assert(v[column as int].children.no_duplicates());
    lemma_without(v[column as int].children, window);
    assert(kids.contains(neighbor));
    assert(kids =~= seq![neighbor]);
    unlinking_keeps_tree(v, window);
    let c = cut_out(v, window);
    assert(!is_only_child_of_split(v, window));
    assert(is_tile(c, neighbor));
    lemma_all_tiles(c, kids);
    assert(tiles(c, column) == kids);
    assert(shares_of(c, kids) =~= seq![share_of(v, neighbor)]);
    lemma_spread_alone(share_of(v, neighbor), -share_of(v, window));
    assert(spread(shares_of(c, kids), -share_of(v, window)) =~= seq![WHOLE]);
    assert(with_shares(c, kids, seq![WHOLE]) == with_share(c, neighbor, WHOLE)) by {
        reveal_with_fuel(with_shares, 2);
        assert(kids.drop_last() =~= Seq::<usize>::empty());
    }
}

/// What moving a window into another container does to links, and what it leaves alone.
#[verifier::spinoff_prover]
#[verifier::rlimit(40)]
pub proof fn lemma_moved_links(t: Tree, id: usize, parent: usize, index: int)
    requires
        wf(t),
        valid(t, id),
        valid(t, parent),
        id != parent,
        kind(t, id) == ContainerKind::TilingWindow,
        t[id as int].parent matches Some(p) && p != parent,
        !is_only_child_of_split(t, id),
        kind(t, parent).is_direction(),
        0 <= index <= t[parent as int].children.len(),
    ensures
        ({
            let u = moved(t, id, parent, index);
            let source = t[id as int].parent->0;
            &&& u.len() == t.len()
            &&& u[id as int].parent == Some(parent)
            &&& u[id as int].children == t[id as int].children
            &&& u[parent as int].children == t[parent as int].children.insert(index, id)
            &&& u[parent as int].parent == t[parent as int].parent
            &&& u[source as int].children == without(t[source as int].children, id)
            &&& u[source as int].parent == t[source as int].parent
            &&& forall|i: int| 0 <= i < t.len() ==> (#[trigger] u[i]).unstack == t[i].unstack
            &&& forall|i: int|
                0 <= i < t.len() && i != id && i != parent && i != source ==> (
                #[trigger] u[i]).parent == t[i].parent && u[i].children == t[i].children
            &&& forall|i: int|
                0 <= i < t.len() && i != id && t[i].parent != Some(parent) ==> (
                #[trigger] u[i]).data == detached(t, id)[i].data
        }),
{
    reveal(moved);
    let p = t[id as int].parent->0;
    let c = cut_out(t, id);
    let d = detached(t, id);
    lemma_parent_facts(t, id);
    lemma_window_childless(t, id);
    cutting_out_keeps_tree(t, id);
    unlinking_keeps_tree(t, id);
    let siblings = tiles(c, p);
    assert forall|k: int| 0 <= k < siblings.len() implies valid(c, #[trigger] siblings[k]) by {
        lemma_tiles_are(c, p);
        assert(siblings.contains(siblings[k]));
    }
    lemma_with_shares(c, siblings, spread(shares_of(c, siblings), -share_of(t, id)));
    assert forall|i: int| 0 <= i < t.len() implies (#[trigger] d[i]).unstack == t[i].unstack by {
        assert(c[i].unstack == t[i].unstack);
    }
    let a = attached(d, id, parent, index);
    let u = moved(t, id, parent, index);
    attaching_keeps_tree(d, id, parent, index);
    lemma_attached_rest(d, id, parent, index);
    focusing_keeps_tree(a, id, t.len());
    let l = linked(d, id, parent, index);
    assert(forall|i: int|
        0 <= i < t.len() ==> (#[trigger] u[i]).parent == a[i].parent && u[i].children
            == a[i].children && u[i].data == a[i].data && u[i].unstack == a[i].unstack);
    assert forall|i: int| 0 <= i < t.len() && i != id && i != parent && i != p implies (
    #[trigger] u[i]).parent == t[i].parent && u[i].children == t[i].children by {
        assert(a[i].parent == l[i].parent);
        assert(d[i].parent == c[i].parent);
    }
}

/// Putting the window back into the row.
#[verifier::spinoff_prover]
#[verifier::rlimit(40)]
proof fn lemma_put_back(
    t: Tree,
    v: Tree,
    workspace: usize,
    window: usize,
    neighbor: usize,
    follows: bool,
)
    requires
        beside(t, workspace, window, neighbor, follows),
        in_own_column(t, v, workspace, window, neighbor, follows),
        t.len() < usize::MAX,
        share_of(v, window) == WHOLE / 2,
        share_of(v, neighbor) == WHOLE / 2,
    ensures
        ({
            let first = pair_place(t, workspace, window, follows);
            let index = if follows {
                first
            } else {
                first + 1
            };
            &&& position(v[workspace as int].children, t.len() as usize) == first
            &&& next_to_column(
                t,
                moved(v, window, workspace, index),
                workspace,
                window,
                neighbor,
                follows,
            )
        }),
{
    let column = t.len() as usize;
    let row = t[workspace as int].children;
    let first = pair_place(t, workspace, window, follows);
    let index = if follows {
        first
    } else {
        first + 1
    };
    lemma_row(t, workspace, window, neighbor, follows);
    lemma_kinds(t, v);
    lemma_taken_out(t, v, workspace, window, neighbor, follows);
    let there = v[workspace as int].children;
    assert(there[first] == column);
    assert(there.no_duplicates());
    lemma_position_is(there, column, first);
    assert(column != workspace);
    assert(!is_only_child_of_split(v, window));
    lemma_moved_links(v, window, workspace, index);
    moving_keeps_tree(v, window, workspace, index);
    moving_changes_shares_only(v, window, workspace, index);
    let m = moved(v, window, workspace, index);
    lemma_same_twice(t, v, m);
    lemma_kinds(v, m);
    assert(there.insert(index, window) =~= (if follows {
        row.take(first).push(window).push(column) + row.skip(first + 2)
    } else {
        row.take(first).push(column).push(window)
    }));
    assert(m[column as int].children == seq![neighbor]);
    assert(m[neighbor as int].data == detached(v, window)[neighbor as int].data);
    assert forall|i: int|
        0 <= i < t.len() && i != workspace && i != window && i != neighbor implies (
    #[trigger] m[i]).parent == t[i].parent && m[i].children == t[i].children && m[i].unstack
        == t[i].unstack by {
        assert(v[i] == t[i]);
    }
}

/// What giving the row its shares again leaves alone.
#[verifier::spinoff_prover]
proof fn lemma_shared_out(
    v: Tree,
    m: Tree,
    workspace: usize,
    column: usize,
    window: usize,
    share: int,
)
    requires
        wf(v),
        wf(m),
        m.len() == v.len(),
        valid(v, workspace),
        valid(v, window),
    ensures
        ({
            let row = tiles(v, workspace);
            let restored = row_restored(v, row, column, share);
            let u = with_share(with_shares(m, row, restored), window, saturated(share));
            &&& wf(u)
            &&& same_links(m, u)
            &&& same_but_shares(m, u)
            &&& forall|i: int| 0 <= i < m.len() ==> (#[trigger] u[i]).unstack == m[i].unstack
            &&& forall|i: int|
                0 <= i < m.len() && i != window && v[i].parent != Some(workspace)
                    ==> #[trigger] u[i] == m[i]
        }),
{
    lemma_tiles_are(v, workspace);
    let row = tiles(v, workspace);
    let restored = row_restored(v, row, column, share);
    assert forall|j: int| 0 <= j < row.len() implies valid(m, #[trigger] row[j]) by {
        assert(row.contains(row[j]));
    }
    assert forall|j: int| 0 <= j < restored.len() implies share_ok(
        #[trigger] restored[j] as int,
    ) by {
        assert(row.contains(row[j]));
        assert(share_ok(v[row[j] as int].data.tiling_size as int));
    }
    lemma_with_shares(m, row, restored);
    lemma_shares_only(m, row, restored);
    let s = with_shares(m, row, restored);
    let u = with_share(s, window, saturated(share));
    assert forall|i: int| 0 <= i < u.len() implies share_ok(
        #[trigger] u[i].data.tiling_size as int,
    ) by {
        assert(share_ok(m[i].data.tiling_size as int));
        assert(share_ok(s[i].data.tiling_size as int));
    }
    assert forall|i: int| 0 <= i < m.len() implies (#[trigger] u[i]).parent == m[i].parent
        && u[i].children == m[i].children && u[i].focus == m[i].focus && u[i].data.kind
        == m[i].data.kind && u[i].unstack == m[i].unstack by {
        assert(s[i].parent == m[i].parent);
        assert(s[i].unstack == m[i].unstack);
    }
    lemma_same_links_wf(m, u);
    lemma_same_twice(m, s, u);
    assert forall|i: int|
        0 <= i < m.len() && i != window && v[i].parent != Some(workspace) implies #[trigger] u[i]
        == m[i] by {
        assert(!row.contains(i as usize));
        assert(s[i] == m[i]);
    }
}

/// Shares do not count for where the window and the column stand.
#[verifier::spinoff_prover]
proof fn lemma_still_next(
    t: Tree,
    m: Tree,
    u: Tree,
    workspace: usize,
    window: usize,
    neighbor: usize,
    follows: bool,
)
    requires
        next_to_column(t, m, workspace, window, neighbor, follows),
        t.len() < usize::MAX,
        valid(t, workspace),
        valid(t, window),
        valid(t, neighbor),
        wf(u),
        same_links(m, u),
        same_but_shares(m, u),
        forall|i: int| 0 <= i < m.len() ==> (#[trigger] u[i]).unstack == m[i].unstack,
        share_of(u, neighbor) == share_of(m, neighbor),
    ensures
        next_to_column(t, u, workspace, window, neighbor, follows),
{
    lemma_same_twice(t, m, u);
    lemma_kinds(m, u);
    assert forall|i: int|
        0 <= i < t.len() && i != workspace && i != window && i != neighbor implies (
    #[trigger] u[i]).parent == t[i].parent && u[i].children == t[i].children && u[i].unstack
        == t[i].unstack by {
        assert(m[i].parent == t[i].parent);
    }
}

/// What the second step leaves: the window beside the column, in its old place.
#[verifier::spinoff_prover]
proof fn lemma_returned(
    t: Tree,
    v: Tree,
    workspace: usize,
    window: usize,
    neighbor: usize,
    follows: bool,
)
    requires
        beside(t, workspace, window, neighbor, follows),
        in_own_column(t, v, workspace, window, neighbor, follows),
        t.len() < usize::MAX,
        share_of(v, window) == WHOLE / 2,
        share_of(v, neighbor) == WHOLE / 2,
    ensures
        next_to_column(
            t,
            moved_beside(v, window, t.len() as usize, workspace, way_back(follows)),
            workspace,
            window,
            neighbor,
            follows,
        ),
{
    reveal(moved_beside);
    let column = t.len() as usize;
    let back = way_back(follows);
    let first = pair_place(t, workspace, window, follows);
    let index = if follows {
        first
    } else {
        first + 1
    };
    lemma_row(t, workspace, window, neighbor, follows);
    lemma_put_back(t, v, workspace, window, neighbor, follows);
    let m = moved(v, window, workspace, index);
    let u = moved_beside(v, window, column, workspace, back);
    if let Some(share) = unstacked_share(v, window, column, workspace) {
        lemma_shared_out(v, m, workspace, column, window, share);
        assert(u[neighbor as int] == m[neighbor as int]);
        lemma_still_next(t, m, u, workspace, window, neighbor, follows);
    }
}

/// What normalizing leaves: the row as it was.
pub open spec fn back_in_row(
    t: Tree,
    u: Tree,
    x: Tree,
    workspace: usize,
    window: usize,
    neighbor: usize,
) -> bool {
    let column = t.len() as usize;
    &&& wf(x)
    &&& is_normal(x, workspace)
    &&& all_needed(x, descendants(t, workspace))
    &&& x[column as int].parent is None
    &&& x.len() == t.len() + 1
    &&& same_but_shares(t, x)
    &&& x[workspace as int].children == t[workspace as int].children
    &&& forall|i: int|
        0 <= i < t.len() ==> (#[trigger] x[i]).parent == t[i].parent && x[i].children
            == t[i].children && x[i].unstack == t[i].unstack
    &&& share_of(x, neighbor) == share_of(u, column)
    &&& forall|y: usize|
        #![trigger share_of(x, y)]
        valid(t, y) && y != neighbor ==> share_of(x, y) == share_of(u, y)
}

/// The neighbor gets the share of the column that it was alone in.
#[verifier::spinoff_prover]
proof fn lemma_share_of_column(u: Tree, column: usize, neighbor: usize)
    requires
        wf(u),
        valid(u, column),
        valid(u, neighbor),
        u[column as int].parent is Some,
        u[column as int].children == seq![neighbor],
        is_tile(u, neighbor),
        share_of(u, neighbor) == WHOLE,
    ensures
        share_of(flattened(u, column), neighbor) == share_of(u, column),
{
    reveal(flattened);
    let p = u[column as int].parent->0;
    let kids = seq![neighbor];
    lemma_flattened(u, column);
    assert(kids[0] == neighbor);
    assert(kids.contains(neighbor));
    lemma_all_tiles(u, kids);
    let by = share_of(u, column) as int;
    let shares = shares_of(u, kids);
    assert(shares =~= seq![WHOLE]);
    assert(shares.take(1) =~= shares);
    assert(shares.take(0) =~= Seq::<i64>::empty());
    reveal_with_fuel(total, 2);
    assert(shares.drop_last() =~= Seq::<i64>::empty());
    assert(total(shares) == WHOLE);
    assert((by * WHOLE) / (WHOLE as int) == by) by (nonlinear_arith)
        requires
            WHOLE == 1073741824,
    ;
    assert((by * 0) / (WHOLE as int) == 0) by (nonlinear_arith)
        requires
            WHOLE == 1073741824,
    ;
    assert(share_ok(u[column as int].data.tiling_size as int));
    assert(scaled(shares, by)[0] == by);
    let s = with_shares(u, kids, scaled(shares, by));
    assert(s == with_share(u, neighbor, by as i64)) by {
        reveal_with_fuel(with_shares, 2);
        assert(kids.drop_last() =~= Seq::<usize>::empty());
    }
    assert(valid(s, kids[0]));
    lemma_with_parents(s, kids, Some(p));
}

/// The row is in order once the column is flattened.
#[verifier::spinoff_prover]
#[verifier::rlimit(40)]
proof fn lemma_flattened_links(
    t: Tree,
    u: Tree,
    workspace: usize,
    window: usize,
    neighbor: usize,
    follows: bool,
)
    requires
        beside(t, workspace, window, neighbor, follows),
        next_to_column(t, u, workspace, window, neighbor, follows),
        t.len() < usize::MAX,
    ensures
        ({
            let x = flattened(u, t.len() as usize);
            &&& wf(x)
            &&& x.len() == t.len() + 1
            &&& same_but_shares(t, x)
            &&& x[t.len() as int].parent is None
            &&& x[t.len() as int].children.len() == 0
            &&& forall|i: int|
                0 <= i < t.len() ==> (#[trigger] x[i]).parent == t[i].parent && x[i].children
                    == t[i].children && x[i].unstack == t[i].unstack
            &&& forall|y: usize|
                #![trigger share_of(x, y)]
                valid(t, y) && y != neighbor ==> share_of(x, y) == share_of(u, y)
        }),
{
    let column = t.len() as usize;
    let row = t[workspace as int].children;
    let first = pair_place(t, workspace, window, follows);
    lemma_row(t, workspace, window, neighbor, follows);
    let x = flattened(u, column);
    lemma_flattened(u, column);
    lemma_flattened_only(u, column);
    flattening_keeps_tree(u, column);
    lemma_same_twice(t, u, x);
    let kids = seq![neighbor];
    assert(kids[0] == neighbor);
    assert(kids.contains(neighbor));
    assert forall|y: usize| #[trigger] kids.contains(y) implies y == neighbor by {
        let j = choose|j: int| 0 <= j < kids.len() && kids[j] == y;
    }
    let there = u[workspace as int].children;
    let place = if follows {
        first + 1
    } else {
        first
    };
    assert(there[place] == column);
    assert(there.no_duplicates());
    lemma_position_is(there, column, place);
    assert(spliced(there, place, kids) =~= row);
    assert forall|i: int| 0 <= i < t.len() implies (#[trigger] x[i]).parent == t[i].parent
        && x[i].children == t[i].children && x[i].unstack == t[i].unstack by {
        assert(kids.contains(i as usize) ==> i == neighbor);
    }
    assert forall|y: usize|
        #![trigger share_of(x, y)]
        valid(t, y) && y != neighbor implies share_of(x, y) == share_of(u, y) by {
        assert(!kids.contains(y));
        if y != workspace {
            assert(x[y as int] == u[y as int]);
        }
    }
}

/// No split is redundant once the row is in order.
#[verifier::spinoff_prover]
proof fn lemma_normal_again(t: Tree, x: Tree, workspace: usize)
    requires
        wf(t),
        valid(t, workspace),
        is_normal(t, workspace),
        t.len() < usize::MAX,
        x.len() == t.len() + 1,
        same_but_shares(t, x),
        x[t.len() as int].parent is None,
        x[t.len() as int].children.len() == 0,
        forall|i: int|
            0 <= i < t.len() ==> (#[trigger] x[i]).parent == t[i].parent && x[i].children
                == t[i].children && x[i].unstack == t[i].unstack,
    ensures
        is_normal(x, workspace),
        all_needed(x, descendants(t, workspace)),
{
    let column = t.len() as usize;
    lemma_kinds(t, x);
    assert forall|y: usize|
        #![trigger is_redundant(x, y)]
        descendants(t, workspace).contains(y) && kind(x, y)
            == ContainerKind::Split implies !is_redundant(x, y) by {
        lemma_is_valid(t, workspace, y);
        assert(x[y as int].parent == t[y as int].parent);
        assert(!is_redundant(t, y));
        if let Some(p) = t[y as int].parent {
            lemma_parent_facts(t, y);
            assert(x[p as int].unstack == t[p as int].unstack);
        }
    }
    assert(x[workspace as int].children == t[workspace as int].children);
    lemma_descendants_within(t, x, workspace, column);
    assert forall|y: usize|
        #![trigger is_redundant(x, y)]
        descendants(x, workspace).contains(y) && kind(x, y)
            == ContainerKind::Split implies !is_redundant(x, y) by {
        assert(within(descendants(t, workspace), column, y));
    }
}

/// Flattening the column that only the neighbor is left in.
#[verifier::spinoff_prover]
proof fn lemma_flattened_column(
    t: Tree,
    u: Tree,
    workspace: usize,
    window: usize,
    neighbor: usize,
    follows: bool,
)
    requires
        beside(t, workspace, window, neighbor, follows),
        next_to_column(t, u, workspace, window, neighbor, follows),
        t.len() < usize::MAX,
    ensures
        back_in_row(t, u, flattened(u, t.len() as usize), workspace, window, neighbor),
{
    let column = t.len() as usize;
    lemma_row(t, workspace, window, neighbor, follows);
    lemma_kinds(t, u);
    assert(is_tile(u, neighbor)) by {
        assert(u[neighbor as int] == u[neighbor as int]);
    }
    lemma_share_of_column(u, column, neighbor);
    lemma_flattened_links(t, u, workspace, window, neighbor, follows);
    lemma_normal_again(t, flattened(u, column), workspace);
}

/// No split but the column is redundant.
#[verifier::spinoff_prover]
proof fn lemma_others_needed(
    t: Tree,
    u: Tree,
    workspace: usize,
    window: usize,
    neighbor: usize,
    follows: bool,
)
    requires
        beside(t, workspace, window, neighbor, follows),
        next_to_column(t, u, workspace, window, neighbor, follows),
        t.len() < usize::MAX,
    ensures
        forall|y: usize|
            #![trigger is_redundant(u, y)]
            descendants(u, workspace).contains(y) && kind(u, y) == ContainerKind::Split && y
                != t.len() ==> !is_redundant(u, y),
        forall|y: usize| #[trigger]
            descendants(u, workspace).contains(y) ==> descendants(t, workspace).contains(y) || y
                == t.len(),
{
    let column = t.len() as usize;
    let row = t[workspace as int].children;
    let now = u[workspace as int].children;
    let first = pair_place(t, workspace, window, follows);
    lemma_row(t, workspace, window, neighbor, follows);
    lemma_kinds(t, u);
    assert(row[first] == window || row[first + 1] == window);
    assert(row[first] == neighbor || row[first + 1] == neighbor);
    assert(row.contains(window) && row.contains(neighbor));
    assert forall|k: int| 0 <= k < u[workspace as int].children.len() implies (
    #[trigger] u[workspace as int].children[k]) == column || row.contains(
        u[workspace as int].children[k],
    ) by {
        if k < first || k > first + 1 {
            assert(now[k] == row[k]);
        }
    }
    lemma_descendants_within(t, u, workspace, column);
    assert forall|y: usize| #[trigger] descendants(u, workspace).contains(y) implies descendants(
        t,
        workspace,
    ).contains(y) || y == t.len() by {
        assert(within(descendants(t, workspace), column, y));
    }
    assert forall|y: usize|
        #![trigger is_redundant(u, y)]
        descendants(u, workspace).contains(y) && kind(u, y) == ContainerKind::Split && y
            != t.len() implies !is_redundant(u, y) by {
        assert(within(descendants(t, workspace), column, y));
        lemma_is_valid(t, workspace, y);
        assert(kind(t, y) == kind(u, y)) by {
            assert(u[y as int] == u[y as int]);
        }
        assert(!is_redundant(t, y));
        if y == neighbor {
            assert(t[y as int].parent == Some(workspace));
        } else {
            assert(u[y as int].parent == t[y as int].parent);
            if let Some(p) = t[y as int].parent {
                lemma_parent_facts(t, y);
                assert(u[p as int].unstack == t[p as int].unstack);
                assert(kind(u, p) == kind(t, p));
            }
        }
    }
}

/// Flattening the one redundant split of a workspace normalizes it.
#[verifier::spinoff_prover]
proof fn lemma_one_flattened(u: Tree, x: Tree, workspace: usize, column: usize)
    requires
        wf(u),
        valid(u, workspace),
        valid(u, column),
        u[column as int].parent == Some(workspace),
        kind(u, column) == ContainerKind::Split,
        u[column as int].children.len() == 1,
        forall|y: usize|
            #![trigger is_redundant(u, y)]
            descendants(u, workspace).contains(y) && kind(u, y) == ContainerKind::Split && y
                != column ==> !is_redundant(u, y),
        x == flattened(u, column),
        x.len() == u.len(),
        same_but_shares(u, x),
        x[column as int].parent is None,
        forall|y: usize|
            #![trigger is_redundant(x, y)]
            descendants(u, workspace).contains(y) && kind(x, y) == ContainerKind::Split && y
                != column ==> !is_redundant(x, y),
    ensures
        splits_normalized(u, workspace) == x,
{
    lemma_splits_of(u, workspace);
    lemma_parent_facts(u, column);
    lemma_kinds(u, x);
    let splits = of_kind(u, descendants(u, workspace), ContainerKind::Split);
    assert(u[workspace as int].children.contains(column));
    assert(splits.contains(column));
    assert forall|k: int| 0 <= k < splits.len() implies {
        let y = #[trigger] splits[k];
        &&& !is_redundant(flattened(u, column), y)
        &&& y != column ==> !is_redundant(u, y)
    } by {
        let y = splits[k];
        assert(descendants(u, workspace).contains(y) && kind(u, y) == ContainerKind::Split);
        lemma_is_valid(u, workspace, y);
        assert(kind(x, y) == kind(u, y)) by {
            assert(x[y as int] == x[y as int]);
        }
        assert(!is_redundant(x, y));
    }
    lemma_one_redundant(u, splits, column);
}

/// Normalizing flattens that column, and nothing else.
#[verifier::spinoff_prover]
proof fn lemma_normalized(
    t: Tree,
    u: Tree,
    workspace: usize,
    window: usize,
    neighbor: usize,
    follows: bool,
)
    requires
        beside(t, workspace, window, neighbor, follows),
        next_to_column(t, u, workspace, window, neighbor, follows),
        t.len() < usize::MAX,
    ensures
        splits_normalized(u, workspace) == flattened(u, t.len() as usize),
{
    let column = t.len() as usize;
    let x = flattened(u, column);
    lemma_flattened_column(t, u, workspace, window, neighbor, follows);
    lemma_others_needed(t, u, workspace, window, neighbor, follows);
    lemma_flattened_only(u, column);
    assert forall|y: usize|
        #![trigger is_redundant(x, y)]
        descendants(u, workspace).contains(y) && kind(x, y) == ContainerKind::Split && y
            != column implies !is_redundant(x, y) by {
        assert(descendants(t, workspace).contains(y));
    }
    lemma_one_flattened(u, x, workspace, column);
}

/// The layout after a window has been moved up or down, moved back, and the redundant splits of
/// its workspace have been flattened.
pub open spec fn round_trip(
    t: Tree,
    sync: PendingSyncView,
    window: usize,
    up_or_down: Direction,
    back: Direction,
    context: MoveContext,
) -> Tree {
    let there = moved_tiling(t, sync, window, up_or_down, context);
    let returned = moved_tiling(there.0, there.1, window, back, context);
    splits_normalized(returned.0, workspace_of(returned.0, window)->0)
}

/// The shares after the second step.
#[verifier::spinoff_prover]
proof fn lemma_trip_shares(
    t: Tree,
    sync: PendingSyncView,
    workspace: usize,
    window: usize,
    neighbor: usize,
    direction: Direction,
    back: Direction,
    gaps: Gaps,
)
    requires
        wf(t),
        can_stack(t, window, neighbor),
        t[window as int].parent == Some(workspace),
        ({
            let v = stacked(t, window, neighbor, direction, gaps);
            first_under(v, ancestors(v, window), workspace) == Some(t.len() as usize)
        }),
    ensures
        ({
            let column = t.len() as usize;
            let v = stacked(t, window, neighbor, direction, gaps);
            let u = moved_beside(v, window, column, workspace, back);
            &&& share_of(t, window) - 1 <= share_of(u, window) <= share_of(t, window)
            &&& share_of(u, window) + share_of(u, column) == share_of(t, window) + share_of(
                t,
                neighbor,
            )
            &&& forall|y: usize|
                #![trigger share_of(u, y)]
                tiles(t, workspace).contains(y) && y != window && y != neighbor ==> share_of(u, y)
                    == share_of(t, y)
        }),
{
    let v = stacked(t, window, neighbor, direction, gaps);
    let u = moved_beside(v, window, t.len() as usize, workspace, back);
    assert(moved_into_ancestor(v, sync, window, workspace, back).0 == u);
    assert(share_of(t, window) - 1 <= share_of(u, window) <= share_of(t, window) && share_of(
        u,
        window,
    ) + share_of(u, t.len() as usize) == share_of(t, window) + share_of(t, neighbor)) by {
        unstacking_restores_shares(t, sync, window, neighbor, direction, back, gaps, window);
    }
    assert forall|y: usize|
        #![trigger share_of(u, y)]
        tiles(t, workspace).contains(y) && y != window && y != neighbor implies share_of(u, y)
        == share_of(t, y) by {
        unstacking_restores_shares(t, sync, window, neighbor, direction, back, gaps, y);
    }
}

/// The trees that a round trip leads through.
#[verifier::spinoff_prover]
proof fn lemma_trip_trees(
    t: Tree,
    sync: PendingSyncView,
    workspace: usize,
    window: usize,
    neighbor: usize,
    follows: bool,
    up_or_down: Direction,
    context: MoveContext,
)
    requires
        beside(t, workspace, window, neighbor, follows),
        can_stack(t, window, neighbor),
        up_or_down.is_vertical(),
        t.len() < MAX_CONTAINERS,
        t.len() < usize::MAX,
    ensures
        ({
            let column = t.len() as usize;
            let back = way_back(follows);
            let there = moved_tiling(t, sync, window, up_or_down, context);
            let returned = moved_tiling(there.0, there.1, window, back, context);
            let v = stacked(t, window, neighbor, up_or_down, context.gaps);
            let u = moved_beside(v, window, column, workspace, back);
            &&& there.2 is Ok
            &&& returned.2 is Ok
            &&& first_under(v, ancestors(v, window), workspace) == Some(column)
            &&& next_to_column(t, u, workspace, window, neighbor, follows)
            &&& round_trip(t, sync, window, up_or_down, back, context) == splits_normalized(
                u,
                workspace,
            )
        }),
{
    let column = t.len() as usize;
    let back = way_back(follows);
    lemma_row(t, workspace, window, neighbor, follows);
    lemma_first_step(t, sync, workspace, window, neighbor, follows, up_or_down, context);
    let there = moved_tiling(t, sync, window, up_or_down, context);
    let v = there.0;
    lemma_there(t, workspace, window, neighbor, follows, up_or_down, context.gaps);
    lemma_second_step(t, v, there.1, workspace, window, neighbor, follows, context);
    lemma_returned(t, v, workspace, window, neighbor, follows);
    let u = moved_beside(v, window, column, workspace, back);
    assert(moved_tiling(v, there.1, window, back, context).0 == u);
    assert(workspace_of(u, window) == Some(workspace)) by {
        lemma_kinds(t, u);
        assert(u[window as int] == u[window as int]);
        assert(u[workspace as int] == u[workspace as int]);
        assert(enclosing_fuel(u, workspace, ContainerKind::Workspace, (u.len() - 1) as nat)
            == Some(workspace));
    }
}

/// A window of a row that is moved up or down goes into a column with its neighbor: above it if it
/// is moved up, below it if it is moved down. The column takes the place of the two in the row, and
/// each has one half of it. No other container changes.
#[verifier::spinoff_prover]
pub proof fn stacking_goes_up_or_down(
    t: Tree,
    sync: PendingSyncView,
    workspace: usize,
    window: usize,
    neighbor: usize,
    follows: bool,
    up_or_down: Direction,
    context: MoveContext,
)
    requires
        beside(t, workspace, window, neighbor, follows),
        up_or_down.is_vertical(),
        t.len() < MAX_CONTAINERS,
        t.len() < usize::MAX,
    ensures
        ({
            let column = t.len() as usize;
            let row = t[workspace as int].children;
            let first = pair_place(t, workspace, window, follows);
            let (u, after, res) = moved_tiling(t, sync, window, up_or_down, context);
            &&& res is Ok
            &&& u.len() == t.len() + 1
            &&& up_or_down == Direction::Up ==> u[column as int].children == seq![window, neighbor]
            &&& up_or_down == Direction::Down ==> u[column as int].children == seq![
                neighbor,
                window,
            ]
            &&& kind(u, column) == ContainerKind::Split
            &&& u[column as int].data.tiling_direction == TilingDirection::Vertical
            &&& u[column as int].parent == Some(workspace)
            &&& u[workspace as int].children == row.take(first).push(column) + row.skip(first + 2)
            &&& share_of(u, window) == WHOLE / 2
            &&& share_of(u, neighbor) == WHOLE / 2
            &&& forall|i: int|
                0 <= i < t.len() && i != workspace && i != window && i != neighbor
                    ==> #[trigger] u[i] == t[i]
        }),
{
    lemma_row(t, workspace, window, neighbor, follows);
    assert(can_stack(t, window, neighbor));
    lemma_first_step(t, sync, workspace, window, neighbor, follows, up_or_down, context);
    lemma_there(t, workspace, window, neighbor, follows, up_or_down, context.gaps);
}

/// A window that is stacked with its neighbor and then moved back stands where it stood, and so do
/// all other tiles of the row. It has the share that it had, less at most one unit; what it does
/// not get its neighbor has, and all others have the shares that they had.
#[verifier::spinoff_prover]
pub proof fn going_back_restores_the_row(
    t: Tree,
    sync: PendingSyncView,
    workspace: usize,
    window: usize,
    neighbor: usize,
    follows: bool,
    up_or_down: Direction,
    context: MoveContext,
)
    requires
        beside(t, workspace, window, neighbor, follows),
        up_or_down.is_vertical(),
        t.len() < MAX_CONTAINERS,
        t.len() < usize::MAX,
    ensures
        ({
            let there = moved_tiling(t, sync, window, up_or_down, context);
            let returned = moved_tiling(there.0, there.1, window, way_back(follows), context);
            let x = round_trip(t, sync, window, up_or_down, way_back(follows), context);
            &&& there.2 is Ok
            &&& returned.2 is Ok
            &&& wf(x)
            &&& is_normal(x, workspace)
            &&& x.len() == t.len() + 1
            &&& same_but_shares(t, x)
            &&& x[workspace as int].children == t[workspace as int].children
            &&& share_of(t, window) - 1 <= share_of(x, window) <= share_of(t, window)
            &&& share_of(x, window) + share_of(x, neighbor) == share_of(t, window) + share_of(
                t,
                neighbor,
            )
            &&& forall|y: usize|
                #![trigger share_of(x, y)]
                t[workspace as int].children.contains(y) && y != window && y != neighbor
                    ==> share_of(x, y) == share_of(t, y)
        }),
{
    let column = t.len() as usize;
    let back = way_back(follows);
    lemma_row(t, workspace, window, neighbor, follows);
    assert(can_stack(t, window, neighbor));
    lemma_trip_trees(t, sync, workspace, window, neighbor, follows, up_or_down, context);
    lemma_trip_shares(
        t,
        sync,
        workspace,
        window,
        neighbor,
        up_or_down,
        back,
        context.gaps,
    );
    let v = stacked(t, window, neighbor, up_or_down, context.gaps);
    let u = moved_beside(v, window, column, workspace, back);
    lemma_normalized(t, u, workspace, window, neighbor, follows);
    lemma_flattened_column(t, u, workspace, window, neighbor, follows);
    let x = flattened(u, column);
    assert(share_of(x, window) == share_of(u, window));
    assert forall|y: usize|
        #![trigger share_of(x, y)]
        t[workspace as int].children.contains(y) && y != window && y != neighbor implies share_of(
        x,
        y,
    ) == share_of(t, y) by {
        lemma_tiles_are(t, workspace);
        assert(valid(t, y));
        assert(share_of(u, y) == share_of(t, y));
    }
}

/// The layout after as many round trips as there are ways, each up or down.
pub open spec fn round_trips(
    t: Tree,
    sync: PendingSyncView,
    window: usize,
    ways: Seq<Direction>,
    back: Direction,
    context: MoveContext,
) -> Tree
    decreases ways.len(),
{
    if ways.len() == 0 {
        t
    } else {
        round_trip(
            round_trips(t, sync, window, ways.drop_last(), back, context),
            sync,
            window,
            ways.last(),
            back,
            context,
        )
    }
}

/// However often a window is stacked with its neighbor and moved back, the row stays in order. The
/// window loses at most one unit of its share on each trip, and its neighbor has what it lost. All
/// other tiles have the shares that they had.
#[verifier::spinoff_prover]
#[verifier::rlimit(40)]
pub proof fn repeated_trips_drift_by_units(
    t: Tree,
    sync: PendingSyncView,
    workspace: usize,
    window: usize,
    neighbor: usize,
    follows: bool,
    ways: Seq<Direction>,
    context: MoveContext,
)
    requires
        beside(t, workspace, window, neighbor, follows),
        forall|k: int| 0 <= k < ways.len() ==> (#[trigger] ways[k]).is_vertical(),
        ways.len() < share_of(t, window),
        t.len() + ways.len() <= MAX_CONTAINERS,
        t.len() + ways.len() <= usize::MAX,
    ensures
        ({
            let x = round_trips(t, sync, window, ways, way_back(follows), context);
            &&& beside(x, workspace, window, neighbor, follows)
            &&& x.len() == t.len() + ways.len()
            &&& same_but_shares(t, x)
            &&& x[workspace as int].children == t[workspace as int].children
            &&& share_of(t, window) - ways.len() <= share_of(x, window) <= share_of(t, window)
            &&& share_of(x, window) + share_of(x, neighbor) == share_of(t, window) + share_of(
                t,
                neighbor,
            )
            &&& forall|y: usize|
                #![trigger share_of(x, y)]
                t[workspace as int].children.contains(y) && y != window && y != neighbor
                    ==> share_of(x, y) == share_of(t, y)
        }),
    decreases ways.len(),
{
    if ways.len() > 0 {
        let front = ways.drop_last();
        assert forall|k: int| 0 <= k < front.len() implies (#[trigger] front[k]).is_vertical() by {
            assert(front[k] == ways[k]);
        }
        repeated_trips_drift_by_units(
            t,
            sync,
            workspace,
            window,
            neighbor,
            follows,
            front,
            context,
        );
        let u = round_trips(t, sync, window, front, way_back(follows), context);
        let x = round_trips(t, sync, window, ways, way_back(follows), context);
        assert(ways[ways.len() - 1].is_vertical());
        going_back_restores_the_row(
            u,
            sync,
            workspace,
            window,
            neighbor,
            follows,
            ways.last(),
            context,
        );
        assert(x == round_trip(u, sync, window, ways.last(), way_back(follows), context));
        lemma_row(u, workspace, window, neighbor, follows);
        lemma_children(u, workspace);
        lemma_kinds(u, x);
        lemma_same_twice(t, u, x);
        assert(u[workspace as int] == u[workspace as int] && x[workspace as int]
            == x[workspace as int] && x[window as int] == x[window as int]);
        let row = u[workspace as int].children;
        assert forall|k: int| 0 <= k < row.len() implies is_tile(x, #[trigger] row[k]) by {
            assert(is_tile(u, row[k]));
            assert(valid(u, u[workspace as int].children[k]));
            assert(x[row[k] as int] == x[row[k] as int]);
        }
        assert forall|y: usize|
            #![trigger share_of(x, y)]
            t[workspace as int].children.contains(y) && y != window && y
                != neighbor implies share_of(x, y) == share_of(t, y) by {
            assert(share_of(u, y) == share_of(t, y));
        }
    }
}

/// Shares that differ by a few units come to the same pixels, or to one more or less.
proof fn lemma_pixels_near(a: int, b: int, units: int, length: int)
    requires
        0 <= a,
        0 <= b,
        -units <= a - b <= units,
        0 <= length,
        units * length <= WHOLE,
    ensures
        -1 <= share_pixels(a, length) - share_pixels(b, length) <= 1,
{
    let whole = WHOLE as int;
    let p = a * length;
    let q = b * length;
    assert(0 <= p && 0 <= q && -whole <= p - q <= whole) by (nonlinear_arith)
        requires
            p == a * length,
            q == b * length,
            0 <= a,
            0 <= b,
            -units <= a - b <= units,
            0 <= length,
            units * length <= whole,
    ;
    let x = (p + PIXEL_TOLERANCE) / whole;
    let y = (q + PIXEL_TOLERANCE) / whole;
    assert(-1 <= x - y <= 1) by (nonlinear_arith)
        requires
            x == (p + PIXEL_TOLERANCE) / whole,
            y == (q + PIXEL_TOLERANCE) / whole,
            -whole <= p - q <= whole,
            whole == 1073741824,
    ;
}

/// As long as the trips are fewer than the parts of a pixel that shares are counted in, no tile
/// gets wider or narrower than it was by more than one pixel, and all but the two that took part
/// are as wide as they were.
pub proof fn repeated_trips_keep_widths(
    t: Tree,
    sync: PendingSyncView,
    workspace: usize,
    window: usize,
    neighbor: usize,
    follows: bool,
    ways: Seq<Direction>,
    context: MoveContext,
    y: usize,
    length: int,
)
    requires
        beside(t, workspace, window, neighbor, follows),
        forall|k: int| 0 <= k < ways.len() ==> (#[trigger] ways[k]).is_vertical(),
        ways.len() < share_of(t, window),
        t.len() + ways.len() <= MAX_CONTAINERS,
        t.len() + ways.len() <= usize::MAX,
        t[workspace as int].children.contains(y),
        0 <= available(t, y, length, true),
        ways.len() * available(t, y, length, true) <= WHOLE,
    ensures
        ({
            let x = round_trips(t, sync, window, ways, way_back(follows), context);
            let change = tile_length(x, y, length, true) - tile_length(t, y, length, true);
            &&& -1 <= change <= 1
            &&& y != window && y != neighbor ==> change == 0
        }),
{
    repeated_trips_drift_by_units(t, sync, workspace, window, neighbor, follows, ways, context);
    let x = round_trips(t, sync, window, ways, way_back(follows), context);
    let row = t[workspace as int].children;
    lemma_row(t, workspace, window, neighbor, follows);
    lemma_row(x, workspace, window, neighbor, follows);
    lemma_children(t, workspace);
    let j = choose|j: int| 0 <= j < row.len() && row[j] == y;
    assert(t[workspace as int].children[j] == y);
    assert(x[workspace as int].children[j] == y);
    assert(valid(t, y) && t[y as int].parent == Some(workspace));
    assert(valid(x, y) && x[y as int].parent == Some(workspace));
    assert((NodeData { tiling_size: t[y as int].data.tiling_size, ..x[y as int].data })
        == t[y as int].data);
    let rest = available(t, y, length, true);
    assert(available(x, y, length, true) == rest);
    let units = ways.len() as int;
    if y == window || y == neighbor {
        lemma_pixels_near(share_of(x, y) as int, share_of(t, y) as int, units, rest);
    } else {
        assert(share_of(x, y) == share_of(t, y));
    }
}

} // verus!
