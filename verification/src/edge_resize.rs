//! Resizing tiles by dragging their edges.

use vstd::prelude::*;

use crate::active_drag::{ActiveDrag, ResizeEdges};
use crate::errors::WmError;
use crate::geometry::{delta_is_taken_back, int_max, Rect, TilingDirection};
use crate::layout::Layout;
use crate::lists::{find, lemma_position, position};
use crate::pending_sync::{PendingSync, PendingSyncView};
use crate::placement::{available_of, rect_of};
use crate::shares::{floor_div, share_ok, sum_shares, total, MAX_CONTAINERS, WHOLE};
use crate::tiling_minimums::{
    apply_resize_shares, capacities_of, floor_share, refresh_tiling_minimums, resize_constraints,
    resized_against, same_axis, self_and_descendants, with_minimums, NativeMinimum,
};
use crate::traversal::{of_kind, workspace_of};
use crate::tree::{
    is_tile, kind, share_of, tiles, valid, wf, with_window, ContainerKind, Tree, WindowProps,
};
use crate::tree_laws::{
    lemma_parent_facts, lemma_same_links_wf, lemma_tiles, lemma_tiles_in, same_links,
};
use crate::wm_state::WmState;

verus! {

/// The tiles on one side of a tile inside its parent: those before it for a leading
/// edge, those after it for a trailing one.
pub open spec fn neighbors_of(t: Tree, id: usize, parent: usize, leading: bool) -> Seq<usize> {
    let ids = tiles(t, parent);
    let place = position(ids, id);
    if leading {
        ids.take(place)
    } else {
        ids.skip(place + 1)
    }
}

/// The tile whose edge is shared with neighbors along an axis: the tile itself, or the
/// nearest split it stands in that has neighbors on that side. `None` at the edge of the
/// workspace.
pub open spec fn divider_at(
    t: Tree,
    id: usize,
    horizontal: bool,
    leading: bool,
    fuel: nat,
) -> Option<usize>
    decreases fuel,
{
    match t[id as int].parent {
        Some(p) if fuel > 0 => if same_axis(t, p, horizontal) && neighbors_of(
            t,
            id,
            p,
            leading,
        ).len() > 0 {
            Some(id)
        } else if is_tile(t, p) {
            divider_at(t, p, horizontal, leading, (fuel - 1) as nat)
        } else {
            None
        },
        _ => None,
    }
}

pub open spec fn divider(t: Tree, id: usize, horizontal: bool, leading: bool) -> Option<usize> {
    divider_at(t, id, horizontal, leading, t.len())
}

/// The tile, its parent and its neighbors at a divider.
pub struct Divider {
    pub container: usize,
    pub parent: usize,
    pub neighbors: Vec<usize>,
}

pub proof fn lemma_neighbors(t: Tree, id: usize, leading: bool)
    requires
        wf(t),
        valid(t, id),
        is_tile(t, id),
        t[id as int].parent is Some,
    ensures
        ({
            let ids = neighbors_of(t, id, t[id as int].parent->0, leading);
            &&& forall|k: int| 0 <= k < ids.len() ==> valid(t, #[trigger] ids[k])
            &&& ids.len() <= MAX_CONTAINERS
            &&& ids.no_duplicates()
            &&& !ids.contains(id)
        }),
{
    let p = t[id as int].parent->0;
    lemma_parent_facts(t, id);
    lemma_tiles(t, p);
    lemma_tiles_in(t, t[p as int].children);
    let all = tiles(t, p);
    assert(all.contains(id));
    lemma_position(all, id);
    let place = position(all, id);
    let ids = neighbors_of(t, id, p, leading);
    assert forall|k: int| 0 <= k < ids.len() implies valid(t, #[trigger] ids[k]) by {
        assert(valid(
            t,
            all[if leading {
                k
            } else {
                k + place + 1
            }],
        ));
    }
}

/// Finds the divider that a dragged edge moves.
pub fn find_divider(
    layout: &Layout,
    window: usize,
    horizontal: bool,
    leading: bool,
) -> (res: Option<Divider>)
    requires
        layout.wf(),
        valid(layout@, window),
        is_tile(layout@, window),
    ensures
        res is Some <==> divider(layout@, window, horizontal, leading) is Some,
        res matches Some(found) ==> divider(layout@, window, horizontal, leading) == Some(
            found.container,
        ) && valid(layout@, found.container) && is_tile(layout@, found.container)
            && layout@[found.container as int].parent == Some(found.parent)
            && valid(layout@, found.parent) && found.neighbors@ == neighbors_of(
            layout@,
            found.container,
            found.parent,
            leading,
        ) && found.neighbors.len() > 0,
{
    let mut current: usize = window;
    let mut fuel: usize = layout.len();
    while fuel > 0
        invariant
            layout.wf(),
            valid(layout@, current),
            is_tile(layout@, current),
            divider(layout@, window, horizontal, leading) == divider_at(
                layout@,
                current,
                horizontal,
                leading,
                fuel as nat,
            ),
        decreases fuel,
    {
        let parent = match layout.parent(current) {
            Some(parent) => parent,
            None => {
                return None;
            },
        };
        proof {
            lemma_parent_facts(layout@, current);
            lemma_tiles(layout@, parent);
            lemma_tiles_in(layout@, layout@[parent as int].children);
            assert(tiles(layout@, parent).contains(current));
            lemma_position(tiles(layout@, parent), current);
        }
        let along: bool = (layout.tiling_direction(parent) == TilingDirection::Horizontal)
            == horizontal;
        if along {
            let ids = layout.tiling_children(parent);
            let place = find(&ids, current);
            let mut neighbors: Vec<usize> = Vec::new();
            if leading {
                for k in 0..place
                    invariant
                        place < ids.len(),
                        neighbors@ == ids@.take(k as int),
                {
                    neighbors.push(ids[k]);
                }
            } else {
                for k in place + 1..ids.len()
                    invariant
                        place < ids.len(),
                        neighbors@ == ids@.subrange(place + 1, k as int),
                {
                    neighbors.push(ids[k]);
                }
                assert(neighbors@ =~= ids@.skip(place + 1));
            }
            if neighbors.len() > 0 {
                return Some(Divider { container: current, parent, neighbors });
            }
        }
        if !layout.is_tile(parent) {
            return None;
        }
        current = parent;
        fuel = fuel - 1;
    }
    None
}

/// The change of a tile's share when its edge moves by some pixels.
pub open spec fn edge_change(delta: int, leading: bool, available: int) -> int {
    ((if leading {
        -delta
    } else {
        delta
    }) * WHOLE) / available
}

/// The outcome of moving an edge: an error, the new tree with the parent of the divider,
/// or `None` where nothing moves.
pub open spec fn edge_resized(
    t: Tree,
    id: usize,
    horizontal: bool,
    leading: bool,
    delta: int,
) -> Result<Option<(Tree, usize)>, WmError> {
    match divider(t, id, horizontal, leading) {
        None => Ok(None),
        Some(c) => {
            let p = t[c as int].parent->0;
            let neighbors = neighbors_of(t, c, p, leading);
            match available_of(t, c, horizontal) {
                Err(error) => Err(error),
                Ok(available) => if available <= 0 {
                    Ok(None)
                } else {
                    match resized_against(
                        t,
                        c,
                        neighbors,
                        share_of(t, c) + edge_change(delta, leading, available),
                        floor_share(t, c, horizontal, available),
                        capacities_of(t, neighbors, horizontal, available),
                    ) {
                        Some(u) => Ok(Some((u, p))),
                        None => Ok(None),
                    }
                },
            }
        },
    }
}

/// Moves an edge of a window by some pixels, as far as the minimum lengths allow.
/// Returns the container whose tiles have changed.
pub fn resize_edge(
    layout: &mut Layout,
    window: usize,
    horizontal: bool,
    leading: bool,
    delta: i64,
) -> (res: Result<Option<usize>, WmError>)
    requires
        old(layout).wf(),
        valid(old(layout)@, window),
        is_tile(old(layout)@, window),
        -0x1_0000_0000 <= delta <= 0x1_0000_0000,
    ensures
        match edge_resized(old(layout)@, window, horizontal, leading, delta as int) {
            Ok(Some(found)) => res == Ok::<Option<usize>, WmError>(Some(found.1)) && final(layout)@
                == found.0,
            Ok(None) => res == Ok::<Option<usize>, WmError>(None) && final(layout)@ == old(layout)@,
            Err(error) => {
                &&& res == Err::<Option<usize>, WmError>(error)
                &&& final(layout)@ == old(layout)@
            },
        },
        final(layout).wf(),
        same_links(old(layout)@, final(layout)@),
{
    let found = match find_divider(layout, window, horizontal, leading) {
        Some(found) => found,
        None => {
            return Ok(None);
        },
    };
    proof {
        lemma_neighbors(layout@, found.container, leading);
        assert(share_ok(layout@[found.container as int].data.tiling_size as int));
    }
    let (available, minimum, capacities) = match resize_constraints(
        layout,
        found.container,
        &found.neighbors,
        horizontal,
    ) {
        Ok(constraints) => constraints,
        Err(error) => {
            return Err(error);
        },
    };
    if available <= 0 {
        return Ok(None);
    }
    let signed: i64 = if leading {
        -delta
    } else {
        delta
    };
    let change: i128 = floor_div(signed as i128 * 1073741824, available as i128);
    proof {
        let a = signed * 1073741824;
        let b = available as int;
        assert(-0x4000_0000_0000_0000 <= a / b <= 0x4000_0000_0000_0000) by (nonlinear_arith)
            requires
                -0x4000_0000_0000_0000 <= a <= 0x4000_0000_0000_0000,
                b >= 1,
        ;
    }
    let target: i64 = layout.tiling_size(found.container) + change as i64;
    let changed = apply_resize_shares(
        layout,
        found.container,
        &found.neighbors,
        target,
        minimum,
        &capacities,
    );
    if changed {
        Ok(Some(found.parent))
    } else {
        Ok(None)
    }
}

/// How far an edge can move, in pixels times a whole share.
pub open spec fn limits_of(
    t: Tree,
    id: usize,
    horizontal: bool,
    leading: bool,
) -> Result<(int, int), WmError> {
    match divider(t, id, horizontal, leading) {
        None => Ok((0, 0)),
        Some(c) => {
            let neighbors = neighbors_of(t, c, t[c as int].parent->0, leading);
            match available_of(t, c, horizontal) {
                Err(error) => Err(error),
                Ok(available) => {
                    let shrink = (share_of(t, c) - floor_share(t, c, horizontal, available))
                        * int_max(available, 0);
                    let grow = total(capacities_of(t, neighbors, horizontal, available)) * int_max(
                        available,
                        0,
                    );
                    if leading {
                        Ok((-grow, shrink))
                    } else {
                        Ok((-shrink, grow))
                    }
                },
            }
        },
    }
}

/// The legal displacement of a dragged edge, in pixels times a whole share: how far it can
/// move up or left, and how far down or right.
pub fn edge_limits(
    layout: &Layout,
    window: usize,
    horizontal: bool,
    leading: bool,
) -> (res: Result<(i128, i128), WmError>)
    requires
        layout.wf(),
        valid(layout@, window),
        is_tile(layout@, window),
    ensures
        match limits_of(layout@, window, horizontal, leading) {
            Ok(found) => res matches Ok(limits) && limits.0 == found.0 && limits.1 == found.1,
            Err(error) => res == Err::<(i128, i128), WmError>(error),
        },
        res matches Ok(limits) ==> -0x0fff_ffff_ffff_ffff_ffff_ffff_ffff_ffff <= limits.0 <= 0 && 0
            <= limits.1 <= 0x0fff_ffff_ffff_ffff_ffff_ffff_ffff_ffff,
{
    let found = match find_divider(layout, window, horizontal, leading) {
        Some(found) => found,
        None => {
            return Ok((0, 0));
        },
    };
    proof {
        lemma_neighbors(layout@, found.container, leading);
        assert(share_ok(layout@[found.container as int].data.tiling_size as int));
    }
    let (available, minimum, capacities) = match resize_constraints(
        layout,
        found.container,
        &found.neighbors,
        horizontal,
    ) {
        Ok(constraints) => constraints,
        Err(error) => {
            return Err(error);
        },
    };
    let length: i128 = if available >= 0 {
        available as i128
    } else {
        0
    };
    proof {
        crate::shares::lemma_total_nonnegative(capacities@);
    }
    let give: i128 = layout.tiling_size(found.container) as i128 - minimum as i128;
    let take: i128 = sum_shares(&capacities);
    assert(0 <= give * length <= 0x0fff_ffff_ffff_ffff_ffff_ffff_ffff_ffff) by (nonlinear_arith)
        requires
            0 <= give <= 0x8_0000_0000_0000,
            0 <= length <= 0x8000_0000,
    ;
    assert(0 <= take * length <= 0x0fff_ffff_ffff_ffff_ffff_ffff_ffff_ffff) by (nonlinear_arith)
        requires
            0 <= take <= 0x2_0000_0000_0000_0000_0000,
            0 <= length <= 0x8000_0000,
    ;
    let shrink: i128 = give * length;
    let grow: i128 = take * length;
    if leading {
        Ok((-grow, shrink))
    } else {
        Ok((-shrink, grow))
    }
}

/// The edges of a resize, with an axis that has begun to move added to them. An edge that
/// is already selected stays.
pub open spec fn extended_edges(edges: ResizeEdges, requested: Rect, current: Rect) -> ResizeEdges {
    let across = !edges.left && !edges.right && requested.w() != current.w();
    let down = !edges.top && !edges.bottom && requested.h() != current.h();
    ResizeEdges {
        left: if across {
            requested.left != current.left
        } else {
            edges.left
        },
        right: if across {
            requested.left == current.left
        } else {
            edges.right
        },
        top: if down {
            requested.top != current.top
        } else {
            edges.top
        },
        bottom: if down {
            requested.top == current.top
        } else {
            edges.bottom
        },
    }
}

/// An edge that is selected stays selected for the rest of the drag, and the opposite edge does
/// not join it: only an axis without a selected edge gets one.
pub proof fn selected_edges_stay(edges: ResizeEdges, requested: Rect, current: Rect)
    ensures
        ({
            let after = extended_edges(edges, requested, current);
            &&& edges.left || edges.right ==> after.left == edges.left && after.right
                == edges.right
            &&& edges.top || edges.bottom ==> after.top == edges.top && after.bottom
                == edges.bottom
            &&& !(edges.left && edges.right) ==> !(after.left && after.right)
            &&& !(edges.top && edges.bottom) ==> !(after.top && after.bottom)
            &&& requested.w() != current.w() ==> after.left || after.right
            &&& requested.h() != current.h() ==> after.top || after.bottom
        }),
{
}

/// An axis without a selected edge gets the edge that the frame has moved: the left or upper one
/// where that is elsewhere, and else the right or lower one. An axis along which the frame keeps its
/// length gets none.
pub proof fn moved_edges_are_selected(edges: ResizeEdges, requested: Rect, current: Rect)
    ensures
        ({
            let after = extended_edges(edges, requested, current);
            &&& !edges.left && !edges.right && requested.w() != current.w() ==> {
                &&& requested.right == current.right ==> after.left && !after.right
                &&& requested.left == current.left ==> after.right && !after.left
                &&& after.left <==> requested.left != current.left
                &&& after.right <==> !after.left
            }
            &&& !edges.top && !edges.bottom && requested.h() != current.h() ==> {
                &&& requested.bottom == current.bottom ==> after.top && !after.bottom
                &&& requested.top == current.top ==> after.bottom && !after.top
                &&& after.top <==> requested.top != current.top
                &&& after.bottom <==> !after.top
            }
            &&& requested.w() == current.w() ==> after.left == edges.left && after.right
                == edges.right
            &&& requested.h() == current.h() ==> after.top == edges.top && after.bottom
                == edges.bottom
        }),
{
}

/// Adds the axis that has begun to move since the drag started.
pub fn extend_resize_edges(edges: ResizeEdges, requested: &Rect, current: &Rect) -> (res:
    ResizeEdges)
    ensures
        res == extended_edges(edges, *requested, *current),
{
    let mut edges = edges;
    if !edges.left && !edges.right && requested.wide_width() != current.wide_width() {
        edges.left = requested.left != current.left;
        edges.right = !edges.left;
    }
    if !edges.top && !edges.bottom && requested.wide_height() != current.wide_height() {
        edges.top = requested.top != current.top;
        edges.bottom = !edges.top;
    }
    edges
}

/// A window's frame is asked to be here.
#[derive(Debug, Clone, Copy, PartialEq, Eq)]
pub struct TilingResize {
    /// The tile that the dragged frame asks for.
    pub requested: Rect,
    /// The tile that the window has.
    pub current: Rect,
    pub edges: ResizeEdges,
}

/// What a dragged frame asks for: an error, nothing, or a change of the tile.
pub open spec fn resize_asked(
    t: Tree,
    window: usize,
    frame: Rect,
    edges: ResizeEdges,
) -> Result<Option<TilingResize>, WmError> {
    let delta = t[window as int].data.window.border_delta;
    if !frame.inset_fits(delta) {
        Err(WmError::OutOfRange)
    } else {
        let requested = frame.inset(delta);
        match rect_of(t, window) {
            None => Err(WmError::OutOfRange),
            Some(current) => if requested == current {
                Ok(None)
            } else {
                Ok(
                    Some(
                        TilingResize {
                            requested,
                            current,
                            edges: extended_edges(edges, requested, current),
                        },
                    ),
                )
            },
        }
    }
}

/// Our own redraw asks for nothing: the frame that the layout gives a window, with its borders,
/// is no change of its tile.
pub proof fn own_redraw_asks_for_nothing(t: Tree, window: usize, edges: ResizeEdges)
    requires
        rect_of(t, window) is Some,
        rect_of(t, window)->0.delta_fits(t[window as int].data.window.border_delta),
    ensures
        resize_asked(
            t,
            window,
            rect_of(t, window)->0.with_delta(t[window as int].data.window.border_delta),
            edges,
        ) == Ok::<Option<TilingResize>, WmError>(None),
{
    delta_is_taken_back(rect_of(t, window)->0, t[window as int].data.window.border_delta);
}

/// The tree with the selected edges noted in the window's drag, if it is dragged.
pub open spec fn with_drag_edges(t: Tree, window: usize, edges: ResizeEdges) -> Tree {
    match t[window as int].data.window.active_drag {
        Some(drag) => with_window(
            t,
            window,
            WindowProps {
                active_drag: Some(ActiveDrag { resize_edges: Some(edges), ..drag }),
                ..t[window as int].data.window
            },
        ),
        None => t,
    }
}

/// Takes in the frame of a window that is being resized: works out which tile it asks for
/// and which edges move, and notes the edges in the window's drag. `None` where the frame
/// is the one that the layout gives, as after our own redraw.
pub fn start_tiling_resize(
    layout: &mut Layout,
    window: usize,
    frame: &Rect,
    edges: &ResizeEdges,
) -> (res: Result<Option<TilingResize>, WmError>)
    requires
        old(layout).wf(),
        valid(old(layout)@, window),
    ensures
        res == resize_asked(old(layout)@, window, *frame, *edges),
        final(layout)@ == (match res {
            Ok(Some(step)) => with_drag_edges(old(layout)@, window, step.edges),
            _ => old(layout)@,
        }),
        final(layout).wf(),
        same_links(old(layout)@, final(layout)@),
{
    let ghost t = layout@;
    let props = layout.window(window);
    let requested = match frame.apply_inverse_delta(&props.border_delta) {
        Some(requested) => requested,
        None => {
            return Err(WmError::OutOfRange);
        },
    };
    let current = match layout.to_rect(window) {
        Some(current) => current,
        None => {
            return Err(WmError::OutOfRange);
        },
    };
    if requested.left == current.left && requested.top == current.top && requested.right
        == current.right && requested.bottom == current.bottom {
        assert(requested == current);
        return Ok(None);
    }
    let edges = extend_resize_edges(*edges, &requested, &current);
    if let Some(drag) = props.active_drag {
        let active_drag = Some(ActiveDrag { resize_edges: Some(edges), ..drag });
        layout.set_window(window, WindowProps { active_drag, ..props });
        proof {
            assert(share_ok(t[window as int].data.tiling_size as int));
            lemma_same_links_wf(t, layout@);
        }
    }
    Ok(Some(TilingResize { requested, current, edges }))
}

/// One edge of a resize and how far it is to move.
#[derive(Debug, Clone, Copy, PartialEq, Eq, Structural)]
pub struct EdgeMove {
    pub enabled: bool,
    pub horizontal: bool,
    pub leading: bool,
    pub delta: i64,
}

/// The four edges of a resize, in the order in which they move.
pub open spec fn edge_moves(step: TilingResize) -> Seq<EdgeMove> {
    seq![
        EdgeMove {
            enabled: step.edges.left,
            horizontal: true,
            leading: true,
            delta: (step.requested.left - step.current.left) as i64,
        },
        EdgeMove {
            enabled: step.edges.right,
            horizontal: true,
            leading: false,
            delta: (step.requested.right - step.current.right) as i64,
        },
        EdgeMove {
            enabled: step.edges.top,
            horizontal: false,
            leading: true,
            delta: (step.requested.top - step.current.top) as i64,
        },
        EdgeMove {
            enabled: step.edges.bottom,
            horizontal: false,
            leading: false,
            delta: (step.requested.bottom - step.current.bottom) as i64,
        },
    ]
}

/// The tree and the pending redraws after moving an edge.
#[verifier::opaque]
pub open spec fn edge_moved(
    t: Tree,
    sync: PendingSyncView,
    window: usize,
    m: EdgeMove,
) -> (Tree, PendingSyncView, Result<(), WmError>) {
    if !m.enabled || m.delta == 0 {
        (t, sync, Ok(()))
    } else {
        match edge_resized(t, window, m.horizontal, m.leading, m.delta as int) {
            Ok(Some(found)) => (found.0, sync.with_redraw(found.1), Ok(())),
            Ok(None) => (t, sync, Ok(())),
            Err(error) => (t, sync, Err(error)),
        }
    }
}

/// The tree and the pending redraws after moving some edges in turn, up to the first error.
pub open spec fn edges_moved(
    t: Tree,
    sync: PendingSyncView,
    window: usize,
    moves: Seq<EdgeMove>,
) -> (Tree, PendingSyncView, Result<(), WmError>)
    decreases moves.len(),
{
    if moves.len() == 0 {
        (t, sync, Ok(()))
    } else {
        let before = edges_moved(t, sync, window, moves.drop_last());
        if before.2 is Err {
            before
        } else {
            edge_moved(before.0, before.1, window, moves.last())
        }
    }
}

proof fn lemma_edges_moved_fails(
    t: Tree,
    sync: PendingSyncView,
    window: usize,
    moves: Seq<EdgeMove>,
    k: int,
)
    requires
        0 <= k <= moves.len(),
        edges_moved(t, sync, window, moves.take(k)).2 is Err,
    ensures
        edges_moved(t, sync, window, moves) == edges_moved(t, sync, window, moves.take(k)),
    decreases moves.len() - k,
{
    if k == moves.len() {
        assert(moves.take(k) =~= moves);
    } else {
        assert(moves.take(k + 1).drop_last() =~= moves.take(k));
        lemma_edges_moved_fails(t, sync, window, moves, k + 1);
    }
}

fn move_edges(
    layout: &mut Layout,
    sync: &mut PendingSync,
    window: usize,
    moves: &Vec<EdgeMove>,
) -> (res: Result<(), WmError>)
    requires
        old(layout).wf(),
        valid(old(layout)@, window),
        is_tile(old(layout)@, window),
        forall|k: int|
            0 <= k < moves.len() ==> -0x1_0000_0000 <= (#[trigger] moves[k]).delta
                <= 0x1_0000_0000,
    ensures
        (final(layout)@, final(sync)@, res) == edges_moved(
            old(layout)@,
            old(sync)@,
            window,
            moves@,
        ),
        final(layout).wf(),
        same_links(old(layout)@, final(layout)@),
{
    let ghost t = layout@;
    let ghost s = sync@;
    assert(moves@.take(0) =~= Seq::<EdgeMove>::empty());
    for i in 0..moves.len()
        invariant
            t == old(layout)@,
            s == old(sync)@,
            layout.wf(),
            same_links(t, layout@),
            valid(t, window),
            is_tile(t, window),
            forall|k: int|
                0 <= k < moves.len() ==> -0x1_0000_0000 <= (#[trigger] moves[k]).delta
                    <= 0x1_0000_0000,
            (layout@, sync@, Ok::<(), WmError>(())) == edges_moved(
                t,
                s,
                window,
                moves@.take(i as int),
            ),
    {
        let m = moves[i];
        proof {
            assert(layout@[window as int].data.kind == t[window as int].data.kind);
            assert(moves@.take(i + 1).drop_last() =~= moves@.take(i as int));
            assert(moves@.take(i + 1).last() == m);
            reveal(edge_moved);
        }
        if m.enabled && m.delta != 0 {
            match resize_edge(layout, window, m.horizontal, m.leading, m.delta) {
                Ok(Some(parent)) => {
                    sync.queue_container_to_redraw(parent);
                },
                Ok(None) => {},
                Err(error) => {
                    proof {
                        lemma_edges_moved_fails(t, s, window, moves@, i + 1);
                    }
                    return Err(error);
                },
            }
        }
    }
    assert(moves@.take(moves.len() as int) =~= moves@);
    Ok(())
}

/// Moves the dividers that a dragged frame asks for, while the opposite edges stay. The
/// window is drawn again in any case, which also restores an edge that is blocked, and
/// nothing is animated: all affected windows follow the cursor.
pub fn apply_tiling_resize(
    window: usize,
    step: &TilingResize,
    state: &mut WmState,
) -> (res: Result<(), WmError>)
    requires
        old(state).layout.wf(),
        valid(old(state).layout@, window),
        kind(old(state).layout@, window) == ContainerKind::TilingWindow,
    ensures
        ({
            let after = edges_moved(
                old(state).layout@,
                old(state).pending_sync@,
                window,
                edge_moves(*step),
            );
            &&& res == after.2
            &&& final(state).layout@ == after.0
            &&& final(state).pending_sync@ == (if res is Ok {
                after.1.without_animations().with_redraw(window)
            } else {
                after.1
            })
        }),
        final(state).layout.wf(),
        same_links(old(state).layout@, final(state).layout@),
        final(state).binding_modes == old(state).binding_modes,
        final(state).events == old(state).events,
        final(state).window_target_positions == old(state).window_target_positions,
        final(state).is_paused == old(state).is_paused,
{
    let requested = step.requested;
    let current = step.current;
    let mut moves: Vec<EdgeMove> = Vec::new();
    moves.push(
        EdgeMove {
            enabled: step.edges.left,
            horizontal: true,
            leading: true,
            delta: requested.left as i64 - current.left as i64,
        },
    );
    moves.push(
        EdgeMove {
            enabled: step.edges.right,
            horizontal: true,
            leading: false,
            delta: requested.right as i64 - current.right as i64,
        },
    );
    moves.push(
        EdgeMove {
            enabled: step.edges.top,
            horizontal: false,
            leading: true,
            delta: requested.top as i64 - current.top as i64,
        },
    );
    moves.push(
        EdgeMove {
            enabled: step.edges.bottom,
            horizontal: false,
            leading: false,
            delta: requested.bottom as i64 - current.bottom as i64,
        },
    );
    assert(moves@ =~= edge_moves(*step));
    let moved = move_edges(&mut state.layout, &mut state.pending_sync, window, &moves);
    if moved.is_ok() {
        state.pending_sync.suppress_animations();
        state.pending_sync.queue_container_to_redraw(window);
    }
    moved
}

/// What resizing a tiled window to a frame that it was dragged to comes to.
pub open spec fn tiling_resized(
    t: Tree,
    sync: PendingSyncView,
    window: usize,
    frame: Rect,
    edges: ResizeEdges,
) -> (Tree, PendingSyncView, Result<(), WmError>) {
    match resize_asked(t, window, frame, edges) {
        Err(error) => (t, sync, Err(error)),
        Ok(None) => (t, sync, Ok(())),
        Ok(Some(step)) => {
            let after = edges_moved(
                with_drag_edges(t, window, step.edges),
                sync,
                window,
                edge_moves(step),
            );
            (
                after.0,
                if after.2 is Ok {
                    after.1.without_animations().with_redraw(window)
                } else {
                    after.1
                },
                after.2,
            )
        },
    }
}

/// Resizes a tiled window to the frame it was dragged to, without confining the cursor.
pub fn resize_tiling_window(
    window: usize,
    frame: &Rect,
    edges: &ResizeEdges,
    state: &mut WmState,
) -> (res: Result<(), WmError>)
    requires
        old(state).layout.wf(),
        valid(old(state).layout@, window),
        kind(old(state).layout@, window) == ContainerKind::TilingWindow,
    ensures
        (final(state).layout@, final(state).pending_sync@, res) == tiling_resized(
            old(state).layout@,
            old(state).pending_sync@,
            window,
            *frame,
            *edges,
        ),
        match resize_asked(old(state).layout@, window, *frame, *edges) {
            Err(error) => {
                &&& res == Err::<(), WmError>(error)
                &&& final(state).layout@ == old(state).layout@
                &&& final(state).pending_sync == old(state).pending_sync
            },
            Ok(None) => {
                &&& res is Ok
                &&& final(state).layout@ == old(state).layout@
                &&& final(state).pending_sync == old(state).pending_sync
            },
            Ok(Some(step)) => {
                let after = edges_moved(
                    with_drag_edges(old(state).layout@, window, step.edges),
                    old(state).pending_sync@,
                    window,
                    edge_moves(step),
                );
                &&& res == after.2
                &&& final(state).layout@ == after.0
                &&& final(state).pending_sync@ == (if res is Ok {
                    after.1.without_animations().with_redraw(window)
                } else {
                    after.1
                })
            },
        },
        final(state).layout.wf(),
        same_links(old(state).layout@, final(state).layout@),
        final(state).binding_modes == old(state).binding_modes,
        final(state).events == old(state).events,
        final(state).window_target_positions == old(state).window_target_positions,
        final(state).is_paused == old(state).is_paused,
{
    match start_tiling_resize(&mut state.layout, window, frame, edges) {
        Ok(Some(step)) => apply_tiling_resize(window, &step, state),
        Ok(None) => Ok(()),
        Err(error) => Err(error),
    }
}

/// Notes the smallest sizes of all tiled windows on a window's workspace, once at the start
/// of a drag rather than at every mouse move.
pub fn cache_resize_minimums(
    layout: &mut Layout,
    window: usize,
    natives: &Vec<NativeMinimum>,
) -> (res: Result<(), WmError>)
    requires
        old(layout).wf(),
        valid(old(layout)@, window),
        natives.len() == old(layout)@.len(),
    ensures
        match workspace_of(old(layout)@, window) {
            None => {
                &&& res == Err::<(), WmError>(WmError::NoWorkspace)
                &&& final(layout)@ == old(layout)@
            },
            Some(workspace) => (final(layout)@, res) == with_minimums(
                old(layout)@,
                of_kind(
                    old(layout)@,
                    self_and_descendants(old(layout)@, workspace),
                    ContainerKind::TilingWindow,
                ),
                natives@,
            ),
        },
        final(layout).wf(),
        same_links(old(layout)@, final(layout)@),
{
    match layout.workspace(window) {
        Some(workspace) => refresh_tiling_minimums(layout, workspace, natives),
        None => Err(WmError::NoWorkspace),
    }
}

} // verus!
