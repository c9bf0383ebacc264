//! Minimum lengths of tiles, and resizing that respects them.

use vstd::prelude::*;

use crate::allocation::{allocate_shares, allocation};
use crate::errors::WmError;
use crate::geometry::{int_max, int_min, max_i32, to_i32, Rect, TilingDirection};
use crate::layout::Layout;
use crate::lists::{lemma_distinct_bounded, lemma_push_unique};
use crate::placement::{available_of, available_tiling_length, gap_along, length_along, rect_of};
use crate::shares::{
    all_ok, equal_weights, floor_div, lemma_total_equal_weights, lemma_total_nonnegative, saturate,
    saturated, share_ok, sum_shares, take_from, taken, total, EPSILON, MAX_CONTAINERS,
    MIN_TILING_SIZE, SHARE_LIMIT, WHOLE,
};
use crate::traversal::{descendants, of_kind};
use crate::tree::{
    joining_share, kind, resized, share_of, shares_of, tile_siblings, tiles, valid, wf, with_share,
    with_shares, with_window, ContainerKind, Tree, WindowProps,
};
use crate::tree_laws::{
    lemma_parent_facts, lemma_same_links_wf, lemma_tile_siblings, lemma_tiles, lemma_with_shares,
    same_links,
};

verus! {

/// Minimum lengths are counted in parts of a pixel.
pub const SUBPIXELS: i64 = 65536;

/// Minimum lengths are kept within this distance of zero.
pub const LENGTH_LIMIT: i64 = 4611686018427387904;

/// Keeps a length within its range.
pub open spec fn length_saturated(x: int) -> int {
    int_max(-LENGTH_LIMIT as int, int_min(x, LENGTH_LIMIT as int))
}

/// Division that rounds up.
pub open spec fn ceil_div(a: int, b: int) -> int
    recommends
        b > 0,
{
    (a + b - 1) / b
}

/// The smallest size that a window accepts along an axis, a single pixel where
/// nothing is known.
pub open spec fn window_minimum(window: WindowProps, horizontal: bool) -> int {
    match window.minimum_tiling_size {
        Some((width, height)) => if horizontal {
            width as int
        } else {
            height as int
        },
        None => 1,
    }
}

/// Whether a split lays its tiles out along an axis.
pub open spec fn same_axis(t: Tree, split: usize, horizontal: bool) -> bool {
    (t[split as int].data.tiling_direction == TilingDirection::Horizontal) == horizontal
}

/// What a split needs so that a tile in it gets its minimum: along the axis so much
/// that the tile's share of it is one pixel more than the minimum, across it the
/// minimum itself.
pub open spec fn needed_for(minimum: int, share: int, along: bool) -> int {
    if along {
        length_saturated(
            ceil_div((minimum + SUBPIXELS) * WHOLE, int_max(share, MIN_TILING_SIZE as int)),
        )
    } else {
        minimum
    }
}

/// The most that any of some tiles needs of the split they stand in.
pub open spec fn needed_by_all(
    t: Tree,
    ids: Seq<usize>,
    horizontal: bool,
    along: bool,
    fuel: nat,
) -> int
    decreases fuel, ids.len() + 1,
{
    if ids.len() == 0 {
        0
    } else {
        int_max(
            needed_by_all(t, ids.drop_last(), horizontal, along, fuel),
            needed_for(
                minimum_fuel(t, ids.last(), horizontal, fuel),
                share_of(t, ids.last()) as int,
                along,
            ),
        )
    }
}

/// The minimum length of a tile along an axis, looking at most `fuel` splits deep.
pub open spec fn minimum_fuel(t: Tree, id: usize, horizontal: bool, fuel: nat) -> int
    decreases fuel, 0nat,
{
    if kind(t, id) != ContainerKind::Split {
        window_minimum(t[id as int].data.window, horizontal) * SUBPIXELS
    } else if fuel == 0 {
        0
    } else {
        let along = same_axis(t, id, horizontal);
        let ids = tiles(t, id);
        let needed = needed_by_all(t, ids, horizontal, along, (fuel - 1) as nat);
        if along {
            length_saturated(
                needed + gap_along(t, id, horizontal) * int_max(ids.len() - 1, 0) * SUBPIXELS,
            )
        } else {
            needed
        }
    }
}

/// The minimum length of a tile along an axis, in parts of a pixel. A split keeps the
/// proportions of its tiles and leaves room for the gaps between them; a plain sum
/// would not protect uneven splits.
pub open spec fn minimum_of(t: Tree, id: usize, horizontal: bool) -> int {
    minimum_fuel(t, id, horizontal, t.len())
}

pub proof fn lemma_minimum_bounded(t: Tree, id: usize, horizontal: bool, fuel: nat)
    ensures
        -LENGTH_LIMIT <= minimum_fuel(t, id, horizontal, fuel) <= LENGTH_LIMIT,
    decreases fuel, 0nat,
{
    if kind(t, id) == ContainerKind::Split && fuel > 0 {
        let along = same_axis(t, id, horizontal);
        lemma_needed_bounded(t, tiles(t, id), horizontal, along, (fuel - 1) as nat);
    }
}

proof fn lemma_needed_bounded(
    t: Tree,
    ids: Seq<usize>,
    horizontal: bool,
    along: bool,
    fuel: nat,
)
    ensures
        0 <= needed_by_all(t, ids, horizontal, along, fuel) <= LENGTH_LIMIT,
    decreases fuel, ids.len() + 1,
{
    if ids.len() > 0 {
        lemma_needed_bounded(t, ids.drop_last(), horizontal, along, fuel);
        lemma_minimum_bounded(t, ids.last(), horizontal, fuel);
    }
}

fn saturate_length(x: i128) -> (res: i64)
    ensures
        res == length_saturated(x as int),
{
    if x > LENGTH_LIMIT as i128 {
        LENGTH_LIMIT
    } else if x < -(LENGTH_LIMIT as i128) {
        -LENGTH_LIMIT
    } else {
        x as i64
    }
}

/// A minimum length and one pixel more, in units of a share.
fn with_spare_pixel(minimum: i64) -> (res: i128)
    requires
        -LENGTH_LIMIT <= minimum <= LENGTH_LIMIT,
    ensures
        res == (minimum + SUBPIXELS) * WHOLE,
        -0xffff_ffff_ffff_ffff_ffff_ffff <= res <= 0xffff_ffff_ffff_ffff_ffff_ffff,
{
    let sum: i128 = minimum as i128 + SUBPIXELS as i128;
    assert(-0xffff_ffff_ffff_ffff_ffff_ffff <= sum * WHOLE <= 0xffff_ffff_ffff_ffff_ffff_ffff)
        by (nonlinear_arith)
        requires
            -4611686018427453440 <= sum <= 4611686018427453440,
            WHOLE == 1073741824,
    ;
    sum * (WHOLE as i128)
}

fn needed_length(minimum: i64, share: i64, along: bool) -> (res: i64)
    requires
        -LENGTH_LIMIT <= minimum <= LENGTH_LIMIT,
        share_ok(share as int),
    ensures
        res == needed_for(minimum as int, share as int, along),
{
    if along {
        let divisor: i64 = if share >= MIN_TILING_SIZE {
            share
        } else {
            MIN_TILING_SIZE
        };
        let dividend: i128 = with_spare_pixel(minimum);
        saturate_length(floor_div(dividend + divisor as i128 - 1, divisor as i128))
    } else {
        minimum
    }
}

impl Layout {
    fn minimum_up_to(&self, id: usize, horizontal: bool, fuel: usize) -> (res: i64)
        requires
            self.wf(),
            valid(self@, id),
        ensures
            res == minimum_fuel(self@, id, horizontal, fuel as nat),
        decreases fuel,
    {
        proof {
            lemma_minimum_bounded(self@, id, horizontal, fuel as nat);
        }
        if self.kind(id) != ContainerKind::Split {
            let length: i32 = match self.window(id).minimum_tiling_size {
                Some((width, height)) => if horizontal {
                    width
                } else {
                    height
                },
                None => 1,
            };
            return length as i64 * SUBPIXELS;
        }
        if fuel == 0 {
            return 0;
        }
        let along: bool = (self.tiling_direction(id) == TilingDirection::Horizontal) == horizontal;
        let ids = self.tiling_children(id);
        proof {
            lemma_tiles(self@, id);
        }
        let mut needed: i64 = 0;
        assert(ids@.take(0) =~= Seq::<usize>::empty());
        for i in 0..ids.len()
            invariant
                self.wf(),
                fuel > 0,
                ids@ == tiles(self@, id),
                forall|k: int| 0 <= k < ids.len() ==> valid(self@, #[trigger] ids[k]),
                needed == needed_by_all(
                    self@,
                    ids@.take(i as int),
                    horizontal,
                    along,
                    (fuel - 1) as nat,
                ),
                -LENGTH_LIMIT <= needed <= LENGTH_LIMIT,
        {
            assert(ids@.take(i + 1).drop_last() =~= ids@.take(i as int));
            assert(valid(self@, ids[i as int]));
            let child = ids[i];
            proof {
                lemma_minimum_bounded(self@, child, horizontal, (fuel - 1) as nat);
                lemma_needed_bounded(
                    self@,
                    ids@.take(i + 1),
                    horizontal,
                    along,
                    (fuel - 1) as nat,
                );
                assert(share_ok(self@[child as int].data.tiling_size as int));
            }
            let minimum = self.minimum_up_to(child, horizontal, fuel - 1);
            let here = needed_length(minimum, self.tiling_size(child), along);
            if here > needed {
                needed = here;
            }
        }
        assert(ids@.take(ids.len() as int) =~= ids@);
        if along {
            let gaps = self.data(id).inner_gaps;
            let gap: i32 = if horizontal {
                gaps.x
            } else {
                gaps.y
            };
            let count: usize = if ids.len() > 0 {
                ids.len() - 1
            } else {
                0
            };
            assert(-0x80_0000_0000_0000_0000 <= gap * count <= 0x80_0000_0000_0000_0000) by (nonlinear_arith)
                requires
                    -0x8000_0000 <= gap <= 0x8000_0000,
                    0 <= count <= 1099511627776,
            ;
            let between: i128 = (gap as i128 * count as i128) * (SUBPIXELS as i128);
            saturate_length(needed as i128 + between)
        } else {
            needed
        }
    }
}

/// The minimum length of a tile along an axis, in parts of a pixel.
pub fn minimum_length(layout: &Layout, container: usize, horizontal: bool) -> (res: i64)
    requires
        layout.wf(),
        valid(layout@, container),
    ensures
        res == minimum_of(layout@, container, horizontal),
        -LENGTH_LIMIT <= res <= LENGTH_LIMIT,
{
    proof {
        lemma_minimum_bounded(layout@, container, horizontal, layout@.len());
    }
    layout.minimum_up_to(container, horizontal, layout.len())
}

/// Gives a tile the share that `target` asks for, and takes the difference from its
/// siblings, in proportion to how far they exceed the smallest share. `None` stands
/// for a target that is not a finite number.
pub fn resize_tiling_container(layout: &mut Layout, container: usize, target_size: Option<i64>)
    requires
        old(layout).wf(),
        valid(old(layout)@, container),
        tile_siblings(old(layout)@, container).len() <= 99,
    ensures
        final(layout)@ == (match target_size {
            Some(target) => resized(old(layout)@, container, target as int),
            None => old(layout)@,
        }),
        final(layout).wf(),
        same_links(old(layout)@, final(layout)@),
{
    if let Some(target) = target_size {
        layout.resize_tile(container, target);
    }
}

/// The share of `available` pixels that holds a minimum length and one pixel more.
pub open spec fn share_for(minimum: int, available: int) -> int
    recommends
        available > 0,
{
    ceil_div((minimum + SUBPIXELS) * WHOLE, available * SUBPIXELS)
}

/// The share that a tile is not to fall below: that of its minimum length, but no
/// more than it has.
pub open spec fn floor_share(t: Tree, id: usize, horizontal: bool, available: int) -> int {
    if available <= 0 {
        share_of(t, id) as int
    } else {
        int_min(
            int_max(share_for(minimum_of(t, id, horizontal), available), MIN_TILING_SIZE as int),
            share_of(t, id) as int,
        )
    }
}

/// What each of some tiles can give up.
pub open spec fn capacities_of(
    t: Tree,
    ids: Seq<usize>,
    horizontal: bool,
    available: int,
) -> Seq<i64> {
    Seq::new(
        ids.len(),
        |i: int| (share_of(t, ids[i]) - floor_share(t, ids[i], horizontal, available)) as i64,
    )
}

fn minimum_share(layout: &Layout, id: usize, horizontal: bool, available: i128) -> (res: i64)
    requires
        layout.wf(),
        valid(layout@, id),
        0 < available <= 0x100_0000_0000_0000_0000,
    ensures
        res == saturated(
            int_max(
                share_for(minimum_of(layout@, id, horizontal), available as int),
                MIN_TILING_SIZE as int,
            ),
        ),
        MIN_TILING_SIZE <= res <= SHARE_LIMIT,
{
    let minimum = minimum_length(layout, id, horizontal);
    let dividend: i128 = with_spare_pixel(minimum);
    assert(0 < available * SUBPIXELS <= 0x100_0000_0000_0000_0000_0000) by (nonlinear_arith)
        requires
            0 < available <= 0x100_0000_0000_0000_0000,
            SUBPIXELS == 65536,
    ;
    let divisor: i128 = available * SUBPIXELS as i128;
    let share: i128 = floor_div(dividend + divisor - 1, divisor);
    if share > MIN_TILING_SIZE as i128 {
        saturate(share)
    } else {
        MIN_TILING_SIZE
    }
}

fn floor_of(layout: &Layout, id: usize, horizontal: bool, available: i32) -> (res: i64)
    requires
        layout.wf(),
        valid(layout@, id),
    ensures
        res == floor_share(layout@, id, horizontal, available as int),
        share_ok(res as int),
        res <= share_of(layout@, id),
{
    assert(share_ok(layout@[id as int].data.tiling_size as int));
    let own = layout.tiling_size(id);
    if available <= 0 {
        return own;
    }
    let wanted = minimum_share(layout, id, horizontal, available as i128);
    if wanted <= own {
        wanted
    } else {
        own
    }
}

/// How far a tile can be resized against some of its siblings: the length they
/// share, the share the tile is not to fall below, and what each of the siblings can
/// give up.
pub fn resize_constraints(
    layout: &Layout,
    container: usize,
    neighbors: &Vec<usize>,
    horizontal: bool,
) -> (res: Result<(i32, i64, Vec<i64>), WmError>)
    requires
        layout.wf(),
        valid(layout@, container),
        forall|k: int| 0 <= k < neighbors.len() ==> valid(layout@, #[trigger] neighbors[k]),
    ensures
        res matches Ok(found) ==> available_of(layout@, container, horizontal) == Ok::<
            int,
            WmError,
        >(found.0 as int) && found.1 == floor_share(
            layout@,
            container,
            horizontal,
            found.0 as int,
        ) && found.2@ == capacities_of(layout@, neighbors@, horizontal, found.0 as int)
            && share_ok(found.1 as int) && found.1 <= share_of(layout@, container) && (forall|
            k: int,
        |
            0 <= k < found.2.len() ==> 0 <= #[trigger] found.2[k] <= 2199023255552),
        res matches Err(error) ==> available_of(layout@, container, horizontal) == Err::<
            int,
            WmError,
        >(error),
{
    let available = match available_tiling_length(layout, container, horizontal) {
        Ok(available) => available,
        Err(error) => {
            return Err(error);
        },
    };
    let minimum = floor_of(layout, container, horizontal, available);
    let mut capacities: Vec<i64> = Vec::new();
    for i in 0..neighbors.len()
        invariant
            layout.wf(),
            forall|k: int| 0 <= k < neighbors.len() ==> valid(layout@, #[trigger] neighbors[k]),
            capacities.len() == i,
            forall|k: int|
                0 <= k < i ==> #[trigger] capacities[k] == capacities_of(
                    layout@,
                    neighbors@,
                    horizontal,
                    available as int,
                )[k],
            forall|k: int| 0 <= k < i ==> 0 <= #[trigger] capacities[k] <= 2199023255552,
    {
        assert(valid(layout@, neighbors[i as int]));
        let child = neighbors[i];
        assert(share_ok(layout@[child as int].data.tiling_size as int));
        let floor = floor_of(layout, child, horizontal, available);
        capacities.push(layout.tiling_size(child) - floor);
    }
    assert(capacities@ =~= capacities_of(layout@, neighbors@, horizontal, available as int));
    Ok((available, minimum, capacities))
}

/// The change of a tile's share for a target: no further down than `minimum`, no
/// further up than the neighbors can give.
pub open spec fn resize_change(size: int, target: int, minimum: int, capacity: int) -> int {
    int_max(minimum - size, int_min(saturated(target) - size, capacity))
}

/// By how much each neighbor takes part: when the tile grows as far as the neighbor
/// can give up, when it shrinks by the share that the neighbor has.
pub open spec fn change_weights(change: int, shares: Seq<i64>, capacities: Seq<i64>) -> Seq<i64> {
    if change > 0 {
        capacities
    } else if total(shares) > 0 {
        shares
    } else {
        equal_weights(shares.len())
    }
}

/// The tree after a tile has been resized against some of its siblings, or `None`
/// where the change is too small to count.
pub open spec fn resized_against(
    t: Tree,
    id: usize,
    neighbors: Seq<usize>,
    target: int,
    minimum: int,
    capacities: Seq<i64>,
) -> Option<Tree> {
    let size = share_of(t, id) as int;
    let change = resize_change(size, target, minimum, total(capacities));
    if -EPSILON < change < EPSILON {
        None
    } else {
        let shares = shares_of(t, neighbors);
        Some(
            with_share(
                with_shares(
                    t,
                    neighbors,
                    taken(shares, change, change_weights(change, shares, capacities)),
                ),
                id,
                saturated(size + change),
            ),
        )
    }
}

proof fn lemma_resized_against(
    t: Tree,
    id: usize,
    neighbors: Seq<usize>,
    target: int,
    minimum: int,
    capacities: Seq<i64>,
)
    requires
        wf(t),
        valid(t, id),
        forall|k: int| 0 <= k < neighbors.len() ==> valid(t, #[trigger] neighbors[k]),
        neighbors.len() == capacities.len(),
    ensures
        resized_against(t, id, neighbors, target, minimum, capacities) matches Some(u) ==> wf(u)
            && same_links(t, u),
{
    if let Some(u) = resized_against(t, id, neighbors, target, minimum, capacities) {
        let size = share_of(t, id) as int;
        let change = resize_change(size, target, minimum, total(capacities));
        let shares = shares_of(t, neighbors);
        let after = taken(shares, change, change_weights(change, shares, capacities));
        assert(all_ok(after));
        lemma_with_shares(t, neighbors, after);
        assert(same_links(t, u));
        lemma_same_links_wf(t, u);
    }
}

/// Resizes a tile against some of its siblings and says whether anything changed.
pub fn apply_resize_shares(
    layout: &mut Layout,
    container: usize,
    neighbors: &Vec<usize>,
    target: i64,
    minimum: i64,
    capacities: &Vec<i64>,
) -> (changed: bool)
    requires
        old(layout).wf(),
        valid(old(layout)@, container),
        forall|k: int| 0 <= k < neighbors.len() ==> valid(old(layout)@, #[trigger] neighbors[k]),
        neighbors.len() == capacities.len(),
        neighbors.len() <= MAX_CONTAINERS,
        share_ok(minimum as int),
        minimum <= share_of(old(layout)@, container),
        forall|k: int|
            0 <= k < capacities.len() ==> 0 <= #[trigger] capacities[k] <= 2199023255552,
    ensures
        ({
            let after = resized_against(
                old(layout)@,
                container,
                neighbors@,
                target as int,
                minimum as int,
                capacities@,
            );
            &&& changed == (after is Some)
            &&& final(layout)@ == (match after {
                Some(u) => u,
                None => old(layout)@,
            })
        }),
        final(layout).wf(),
        same_links(old(layout)@, final(layout)@),
{
    let ghost t = layout@;
    proof {
        lemma_resized_against(
            t,
            container,
            neighbors@,
            target as int,
            minimum as int,
            capacities@,
        );
        lemma_total_nonnegative(capacities@);
        assert(share_ok(t[container as int].data.tiling_size as int));
    }
    let size = layout.tiling_size(container);
    let capacity: i128 = sum_shares(capacities);
    let wanted: i64 = saturate(target as i128) - size;
    let capped: i64 = if wanted as i128 <= capacity {
        wanted
    } else {
        capacity as i64
    };
    let lowest: i64 = minimum - size;
    let change: i64 = if lowest >= capped {
        lowest
    } else {
        capped
    };
    assert(change == resize_change(size as int, target as int, minimum as int, total(capacities@)));
    if -EPSILON < change && change < EPSILON {
        return false;
    }
    assert(all_ok(shares_of(t, neighbors@))) by {
        assert forall|i: int| 0 <= i < neighbors.len() implies share_ok(
            #[trigger] shares_of(t, neighbors@)[i] as int,
        ) by {
            assert(valid(t, neighbors[i]));
            assert(share_ok(t[neighbors@[i] as int].data.tiling_size as int));
        }
    }
    let shares = layout.shares(neighbors);
    let mut equal: Vec<i64> = Vec::new();
    for i in 0..shares.len()
        invariant
            equal.len() == i,
            forall|j: int| 0 <= j < i ==> #[trigger] equal[j] == 1,
    {
        equal.push(1);
    }
    assert(equal@ =~= equal_weights(shares@.len()));
    proof {
        lemma_total_equal_weights(shares@.len());
    }
    let own: i128 = sum_shares(&shares);
    let weights: &Vec<i64> = if change > 0 {
        capacities
    } else if own > 0 {
        &shares
    } else {
        &equal
    };
    let after = take_from(&shares, change, weights);
    layout.set_shares(neighbors, &after);
    proof {
        lemma_with_shares(t, neighbors@, after@);
    }
    layout.set_tiling_size(container, saturate(size as i128 + change as i128));
    true
}

/// The outcome of resizing a tile against all its siblings: an error, the new tree,
/// or `None` where nothing changes.
pub open spec fn resized_with_minimums(
    t: Tree,
    id: usize,
    target: Option<i64>,
) -> Result<Option<Tree>, WmError> {
    match t[id as int].parent {
        None => Err(WmError::NoParent),
        Some(p) => if !kind(t, p).is_direction() {
            Err(WmError::NoDirectionContainer)
        } else {
            let horizontal = t[p as int].data.tiling_direction == TilingDirection::Horizontal;
            let siblings = tile_siblings(t, id);
            match available_of(t, id, horizontal) {
                Err(error) => Err(error),
                Ok(available) => match target {
                    Some(target) if siblings.len() > 0 && available > 0 => Ok(
                        resized_against(
                            t,
                            id,
                            siblings,
                            target as int,
                            floor_share(t, id, horizontal, available),
                            capacities_of(t, siblings, horizontal, available),
                        ),
                    ),
                    _ => Ok(None),
                },
            }
        },
    }
}

/// Gives a tile the share that `target` asks for, as far as its own minimum length and
/// those of its siblings allow, and says whether anything changed. `None` stands for a
/// target that is not a finite number.
pub fn resize_with_minimums(
    layout: &mut Layout,
    container: usize,
    target: Option<i64>,
) -> (res: Result<bool, WmError>)
    requires
        old(layout).wf(),
        valid(old(layout)@, container),
    ensures
        match resized_with_minimums(old(layout)@, container, target) {
            Ok(Some(u)) => res == Ok::<bool, WmError>(true) && final(layout)@ == u,
            Ok(None) => res == Ok::<bool, WmError>(false) && final(layout)@ == old(layout)@,
            Err(error) => res == Err::<bool, WmError>(error) && final(layout)@ == old(layout)@,
        },
        final(layout).wf(),
        same_links(old(layout)@, final(layout)@),
{
    let p = match layout.parent(container) {
        Some(p) => p,
        None => {
            return Err(WmError::NoParent);
        },
    };
    proof {
        lemma_parent_facts(layout@, container);
        lemma_tile_siblings(layout@, container);
    }
    if !layout.is_direction(p) {
        return Err(WmError::NoDirectionContainer);
    }
    let horizontal = layout.tiling_direction(p) == TilingDirection::Horizontal;
    let siblings = layout.tiling_siblings(container);
    let (available, minimum, capacities) = match resize_constraints(
        layout,
        container,
        &siblings,
        horizontal,
    ) {
        Ok(found) => found,
        Err(error) => {
            return Err(error);
        },
    };
    if let Some(share) = target {
        if siblings.len() > 0 && available > 0 {
            let changed = apply_resize_shares(
                layout,
                container,
                &siblings,
                share,
                minimum,
                &capacities,
            );
            return Ok(changed);
        }
    }
    Ok(false)
}

/// The gap between the tiles of a container along an axis: that of the first tile.
pub open spec fn tiles_gap(t: Tree, parent: usize, horizontal: bool) -> int {
    let ids = tiles(t, parent);
    if ids.len() == 0 {
        0
    } else {
        gap_along(t, ids[0], horizontal)
    }
}

/// How the tiles of a container would share its length if they made room for one more,
/// each kept in proportion, the new one last.
pub open spec fn insertion_weights(t: Tree, parent: usize) -> Seq<i64> {
    let ids = tiles(t, parent);
    let new_share = joining_share(ids.len());
    Seq::new(
        ids.len(),
        |i: int| ((share_of(t, ids[i]) * (WHOLE - new_share)) / (WHOLE as int)) as i64,
    ).push(new_share as i64)
}

/// The share that each of some tiles needs of a length.
pub open spec fn needed_shares(
    t: Tree,
    ids: Seq<usize>,
    horizontal: bool,
    available: int,
) -> Seq<i64> {
    Seq::new(
        ids.len(),
        |i: int|
            saturated(
                int_max(
                    share_for(minimum_of(t, ids[i], horizontal), available),
                    MIN_TILING_SIZE as int,
                ),
            ),
    )
}

/// Whether some tile needs more of the axis across than there is.
pub open spec fn too_long_across(
    t: Tree,
    ids: Seq<usize>,
    horizontal: bool,
    cross_length: int,
) -> bool {
    exists|k: int|
        0 <= k < ids.len() && minimum_of(t, #[trigger] ids[k], !horizontal) > cross_length
            * SUBPIXELS
}

/// The tiles of a container and one more, each with its share.
pub open spec fn zipped(ids: Seq<usize>, shares: Seq<i64>) -> Seq<(usize, i64)> {
    Seq::new(ids.len(), |i: int| (ids[i], shares[i]))
}

/// The shares with which a window could join the tiles of a container, or `None` where
/// there is no room for it.
pub open spec fn insertion_plan(
    t: Tree,
    window: usize,
    parent: usize,
) -> Result<Option<Seq<(usize, i64)>>, WmError> {
    if !kind(t, parent).is_direction() {
        Err(WmError::NoDirectionContainer)
    } else {
        let horizontal = t[parent as int].data.tiling_direction == TilingDirection::Horizontal;
        match rect_of(t, parent) {
            None => Err(WmError::OutOfRange),
            Some(rect) => {
                let ids = tiles(t, parent);
                let all = ids.push(window);
                let available = length_along(rect, horizontal) - tiles_gap(t, parent, horizontal)
                    * ids.len();
                let minimums = needed_shares(t, all, horizontal, available);
                if available <= 0 || too_long_across(
                    t,
                    all,
                    horizontal,
                    length_along(rect, !horizontal),
                ) || total(minimums) > WHOLE {
                    Ok(None)
                } else {
                    Ok(Some(zipped(all, allocation(insertion_weights(t, parent), minimums))))
                }
            },
        }
    }
}

/// Plans how a window could join the tiles of a container. Nothing is touched, so an
/// impossible insertion leaves the layout exactly as it was.
pub fn plan_tiling_insertion(
    layout: &Layout,
    window: usize,
    parent: usize,
) -> (res: Result<Option<Vec<(usize, i64)>>, WmError>)
    requires
        layout.wf(),
        valid(layout@, window),
        valid(layout@, parent),
    ensures
        match insertion_plan(layout@, window, parent) {
            Ok(Some(plan)) => res matches Ok(Some(found)) && found@ == plan,
            Ok(None) => res matches Ok(None),
            Err(error) => res matches Err(found) && found == error,
        },
{
    if !layout.is_direction(parent) {
        return Err(WmError::NoDirectionContainer);
    }
    let horizontal = layout.tiling_direction(parent) == TilingDirection::Horizontal;
    let rect = match layout.to_rect(parent) {
        Some(rect) => rect,
        None => {
            return Err(WmError::OutOfRange);
        },
    };
    let mut all = layout.tiling_children(parent);
    let ghost t = layout@;
    let ghost ids = tiles(t, parent);
    proof {
        lemma_tiles(t, parent);
        lemma_tiles_leave_room(t, parent);
    }
    let count: usize = all.len();
    let mut gap: i32 = 0;
    if count > 0 {
        assert(valid(t, ids[0]));
        let gaps = layout.data(all[0]).inner_gaps;
        gap = if horizontal {
            gaps.x
        } else {
            gaps.y
        };
    }
    assert(-0x80_0000_0000_0000_0000 <= gap * count <= 0x80_0000_0000_0000_0000) by (nonlinear_arith)
        requires
            -0x8000_0000 <= gap <= 0x8000_0000,
            0 <= count <= 1099511627776,
    ;
    let length: i64 = if horizontal {
        rect.wide_width()
    } else {
        rect.wide_height()
    };
    let cross_length: i64 = if horizontal {
        rect.wide_height()
    } else {
        rect.wide_width()
    };
    let available: i128 = length as i128 - gap as i128 * count as i128;
    if available <= 0 {
        return Ok(None);
    }
    let new_share: i64 = WHOLE / (count as i64 + 1);
    assert(0 <= new_share <= WHOLE) by (nonlinear_arith)
        requires
            new_share == (WHOLE as int) / (count + 1),
            0 <= count,
            WHOLE == 1073741824,
    ;
    let mut weights: Vec<i64> = Vec::new();
    for i in 0..count
        invariant
            layout.wf(),
            t == layout@,
            ids == tiles(t, parent),
            all@ == ids,
            count == ids.len(),
            0 <= new_share <= WHOLE,
            new_share == joining_share(count as nat),
            forall|k: int| 0 <= k < ids.len() ==> valid(t, #[trigger] ids[k]),
            weights.len() == i,
            all_ok(weights@),
            forall|k: int|
                0 <= k < i ==> #[trigger] weights[k] == insertion_weights(t, parent)[k],
    {
        assert(valid(t, ids[i as int]));
        assert(share_ok(t[ids[i as int] as int].data.tiling_size as int));
        let share = layout.tiling_size(all[i]);
        let rest: i64 = WHOLE - new_share;
        assert(-0x0fff_ffff_ffff_ffff_ffff_ffff <= share * rest <= 0x0fff_ffff_ffff_ffff_ffff_ffff)
            by (nonlinear_arith)
            requires
                -1099511627776 <= share <= 1099511627776,
                0 <= rest <= 1073741824,
        ;
        let kept: i128 = floor_div(share as i128 * rest as i128, WHOLE as i128);
        assert(-SHARE_LIMIT <= kept <= SHARE_LIMIT) by (nonlinear_arith)
            requires
                kept == (share * rest) / (WHOLE as int),
                -1099511627776 <= share <= 1099511627776,
                0 <= rest <= 1073741824,
                WHOLE == 1073741824,
                SHARE_LIMIT == 1099511627776,
        ;
        weights.push(kept as i64);
    }
    weights.push(new_share);
    assert(weights@ =~= insertion_weights(t, parent));
    all.push(window);
    assert forall|k: int| 0 <= k < all.len() implies valid(t, #[trigger] all[k]) by {
        if k < count {
            assert(valid(t, ids[k]));
        }
    }
    let mut minimums: Vec<i64> = Vec::new();
    for i in 0..all.len()
        invariant
            layout.wf(),
            t == layout@,
            all@ == ids.push(window),
            forall|k: int| 0 <= k < all.len() ==> valid(t, #[trigger] all[k]),
            0 < available <= 0x100_0000_0000_0000_0000,
            -0x1_0000_0000 <= cross_length <= 0x1_0000_0000,
            ids == tiles(t, parent),
            kind(t, parent).is_direction(),
            horizontal == (t[parent as int].data.tiling_direction == TilingDirection::Horizontal),
            rect_of(t, parent) == Some(rect),
            available == length_along(rect, horizontal) - tiles_gap(t, parent, horizontal)
                * ids.len(),
            cross_length == length_along(rect, !horizontal),
            minimums.len() == i,
            all_ok(minimums@),
            forall|k: int|
                0 <= k < i ==> #[trigger] minimums[k] == needed_shares(
                    t,
                    all@,
                    horizontal,
                    available as int,
                )[k],
            forall|k: int| 0 <= k < i ==> 0 <= #[trigger] minimums[k],
            forall|k: int|
                0 <= k < i ==> minimum_of(t, #[trigger] all[k], !horizontal) <= cross_length
                    * SUBPIXELS,
    {
        assert(valid(t, all[i as int]));
        let child = all[i];
        if minimum_length(layout, child, !horizontal) > cross_length * SUBPIXELS {
            assert(minimum_of(t, all@[i as int], !horizontal) > cross_length * SUBPIXELS);
            assert(too_long_across(t, all@, horizontal, cross_length as int));
            return Ok(None);
        }
        minimums.push(minimum_share(layout, child, horizontal, available));
    }
    assert(minimums@ =~= needed_shares(t, all@, horizontal, available as int));
    assert(!too_long_across(t, all@, horizontal, cross_length as int)) by {
        assert forall|k: int| 0 <= k < all@.len() implies minimum_of(
            t,
            #[trigger] all@[k],
            !horizontal,
        ) <= cross_length * SUBPIXELS by {
            assert(minimum_of(t, all[k], !horizontal) <= cross_length * SUBPIXELS);
        }
    }
    let shares = match allocate_shares(&weights, &minimums) {
        Some(shares) => shares,
        None => {
            return Ok(None);
        },
    };
    let ghost sizes = allocation(insertion_weights(t, parent), minimums@);
    let mut plan: Vec<(usize, i64)> = Vec::new();
    for i in 0..all.len()
        invariant
            shares.len() == all.len(),
            shares@ == sizes,
            plan.len() == i,
            forall|k: int| 0 <= k < i ==> #[trigger] plan[k] == (all[k], shares[k]),
    {
        plan.push((all[i], shares[i]));
    }
    assert(plan@ =~= zipped(all@, sizes));
    Ok(Some(plan))
}

/// A container has fewer tiles than there are containers: it is not its own tile.
proof fn lemma_tiles_leave_room(t: Tree, parent: usize)
    requires
        wf(t),
        valid(t, parent),
    ensures
        tiles(t, parent).len() < t.len(),
{
    lemma_tiles(t, parent);
    let ids = tiles(t, parent);
    if ids.contains(parent) {
        lemma_parent_facts(t, parent);
    }
    lemma_push_unique(ids, parent);
    let all = ids.push(parent);
    assert forall|i: int| 0 <= i < all.len() implies #[trigger] all[i] < t.len() by {
        if i < ids.len() {
            assert(valid(t, ids[i]));
        }
    }
    lemma_distinct_bounded(all, t.len() as int);
}

/// What the system says of the smallest size of a window.
#[derive(Debug, Clone, Copy, PartialEq, Eq, Structural)]
pub enum NativeMinimum {
    /// The smallest frame that the window can be dragged to.
    Answered(i32, i32),
    /// The window did not answer.
    Unanswered,
    /// The system has no such question.
    Unsupported,
}

/// The tile that a window fills at present, from the layout or from its frame.
pub open spec fn current_tile(t: Tree, id: usize) -> Result<Rect, WmError> {
    match rect_of(t, id) {
        Some(rect) => Ok(rect),
        None => {
            let window = t[id as int].data.window;
            if window.frame.inset_fits(window.border_delta) {
                Ok(window.frame.inset(window.border_delta))
            } else {
                Err(WmError::OutOfRange)
            }
        },
    }
}

/// The smallest tile that a window fits in.
pub open spec fn smallest_tile(
    t: Tree,
    id: usize,
    native: NativeMinimum,
) -> Result<Rect, WmError> {
    let window = t[id as int].data.window;
    match native {
        NativeMinimum::Answered(width, height) if window.is_resizable => {
            let frame = Rect { left: 0, top: 0, right: width, bottom: height };
            if frame.inset_fits(window.total_border_delta) {
                Ok(frame.inset(window.total_border_delta))
            } else {
                Err(WmError::OutOfRange)
            }
        },
        NativeMinimum::Unsupported if window.is_resizable => Ok(
            Rect { left: 0, top: 0, right: 1, bottom: 1 },
        ),
        _ => current_tile(t, id),
    }
}

/// The smallest width and height of a window as a tile, at least a pixel each.
pub open spec fn smallest_size(
    t: Tree,
    id: usize,
    native: NativeMinimum,
) -> Result<(i32, i32), WmError> {
    match smallest_tile(t, id, native) {
        Err(error) => Err(error),
        Ok(rect) => if rect.measurable() {
            Ok((int_max(rect.w(), 1) as i32, int_max(rect.h(), 1) as i32))
        } else {
            Err(WmError::OutOfRange)
        },
    }
}

/// The tree with the smallest size of a window noted.
pub open spec fn with_minimum(t: Tree, id: usize, size: (i32, i32)) -> Tree {
    with_window(
        t,
        id,
        WindowProps { minimum_tiling_size: Some(size), ..t[id as int].data.window },
    )
}

/// Notes the smallest size that a window accepts as a tile.
pub fn refresh_window_minimum(
    layout: &mut Layout,
    window: usize,
    native: NativeMinimum,
) -> (res: Result<(), WmError>)
    requires
        old(layout).wf(),
        valid(old(layout)@, window),
    ensures
        match smallest_size(old(layout)@, window, native) {
            Ok(size) => res == Ok::<(), WmError>(()) && final(layout)@ == with_minimum(
                old(layout)@,
                window,
                size,
            ),
            Err(error) => res == Err::<(), WmError>(error) && final(layout)@ == old(layout)@,
        },
        final(layout).wf(),
        same_links(old(layout)@, final(layout)@),
{
    let ghost t = layout@;
    let props = layout.window(window);
    let minimum: Rect = match native {
        NativeMinimum::Answered(width, height) if props.is_resizable => {
            match Rect::from_ltrb(0, 0, width, height).apply_inverse_delta(
                &props.total_border_delta,
            ) {
                Some(rect) => rect,
                None => {
                    return Err(WmError::OutOfRange);
                },
            }
        },
        NativeMinimum::Unsupported if props.is_resizable => Rect::from_ltrb(0, 0, 1, 1),
        _ => match layout.to_rect(window) {
            Some(rect) => rect,
            None => match props.frame.apply_inverse_delta(&props.border_delta) {
                Some(rect) => rect,
                None => {
                    return Err(WmError::OutOfRange);
                },
            },
        },
    };
    assert(smallest_tile(t, window, native) == Ok::<Rect, WmError>(minimum));
    match (to_i32(minimum.wide_width()), to_i32(minimum.wide_height())) {
        (Some(width), Some(height)) => {
            let size: (i32, i32) = (max_i32(width, 1), max_i32(height, 1));
            layout.set_window(window, WindowProps { minimum_tiling_size: Some(size), ..props });
            proof {
                assert(share_ok(t[window as int].data.tiling_size as int));
                lemma_same_links_wf(t, layout@);
            }
            Ok(())
        },
        _ => Err(WmError::OutOfRange),
    }
}

/// The tree after noting the smallest sizes of some windows in turn, up to the first
/// error.
pub open spec fn with_minimums(
    t: Tree,
    windows: Seq<usize>,
    natives: Seq<NativeMinimum>,
) -> (Tree, Result<(), WmError>)
    decreases windows.len(),
{
    if windows.len() == 0 {
        (t, Ok(()))
    } else {
        let before = with_minimums(t, windows.drop_last(), natives);
        match before.1 {
            Err(error) => before,
            Ok(_) => match smallest_size(
                before.0,
                windows.last(),
                natives[windows.last() as int],
            ) {
                Ok(size) => (with_minimum(before.0, windows.last(), size), Ok(())),
                Err(error) => (before.0, Err(error)),
            },
        }
    }
}

/// A container and all that stands in it.
pub open spec fn self_and_descendants(t: Tree, id: usize) -> Seq<usize> {
    seq![id] + descendants(t, id)
}

proof fn lemma_with_minimums_fails(
    t: Tree,
    windows: Seq<usize>,
    natives: Seq<NativeMinimum>,
    k: int,
)
    requires
        0 <= k <= windows.len(),
        with_minimums(t, windows.take(k), natives).1 is Err,
    ensures
        with_minimums(t, windows, natives) == with_minimums(t, windows.take(k), natives),
    decreases windows.len() - k,
{
    if k == windows.len() {
        assert(windows.take(k) =~= windows);
    } else {
        assert(windows.take(k + 1).drop_last() =~= windows.take(k));
        lemma_with_minimums_fails(t, windows, natives, k + 1);
    }
}

/// Notes the smallest sizes of all tiled windows in a container, the container itself
/// counted. `natives` says for each container number what the system answered.
pub fn refresh_tiling_minimums(
    layout: &mut Layout,
    container: usize,
    natives: &Vec<NativeMinimum>,
) -> (res: Result<(), WmError>)
    requires
        old(layout).wf(),
        valid(old(layout)@, container),
        natives.len() == old(layout)@.len(),
    ensures
        ({
            let windows = of_kind(
                old(layout)@,
                self_and_descendants(old(layout)@, container),
                ContainerKind::TilingWindow,
            );
            (final(layout)@, res) == with_minimums(old(layout)@, windows, natives@)
        }),
        final(layout).wf(),
        same_links(old(layout)@, final(layout)@),
{
    let ghost t = layout@;
    let mut all: Vec<usize> = Vec::new();
    all.push(container);
    let mut inner = layout.descendants(container);
    all.append(&mut inner);
    assert(all@ =~= self_and_descendants(t, container));
    assert forall|k: int| 0 <= k < all.len() implies valid(t, #[trigger] all[k]) by {
        if k > 0 {
            assert(all[k] == descendants(t, container)[k - 1]);
        }
    }
    let windows = layout.filter_kind(&all, ContainerKind::TilingWindow);
    assert(windows@.take(0) =~= Seq::<usize>::empty());
    for i in 0..windows.len()
        invariant
            t == old(layout)@,
            layout.wf(),
            same_links(t, layout@),
            natives.len() == t.len(),
            windows@ == of_kind(t, self_and_descendants(t, container), ContainerKind::TilingWindow),
            forall|k: int| 0 <= k < windows.len() ==> valid(t, #[trigger] windows[k]),
            with_minimums(t, windows@.take(i as int), natives@) == (
                layout@,
                Ok::<(), WmError>(()),
            ),
    {
        assert(valid(t, windows[i as int]));
        assert(windows@.take(i + 1).drop_last() =~= windows@.take(i as int));
        let window = windows[i];
        match refresh_window_minimum(layout, window, natives[window]) {
            Ok(_) => {},
            Err(error) => {
                proof {
                    lemma_with_minimums_fails(t, windows@, natives@, i + 1);
                }
                return Err(error);
            },
        }
    }
    assert(windows@.take(windows.len() as int) =~= windows@);
    Ok(())
}

} // verus!
