//! Where containers are on the screen.

use vstd::prelude::*;

use crate::errors::WmError;
use crate::geometry::{
    fits_i32, int_max, int_min, Rect, TilingDirection,
};
use crate::layout::Layout;
use crate::lists::{find, lemma_position, position};
use crate::shares::{share_ok, total, MAX_CONTAINERS, WHOLE};
use crate::tree::{
    is_tile, kind, share_of, shares_of, tile_siblings, tiles, valid, wf, ContainerKind, Tree,
};
use crate::tree_laws::{lemma_parent_facts, lemma_tile_siblings, lemma_tiles, lemma_tiles_in};

verus! {

/// The length of a rectangle along an axis.
pub open spec fn length_along(rect: Rect, horizontal: bool) -> int {
    if horizontal {
        rect.w()
    } else {
        rect.h()
    }
}

/// The gap between neighboring tiles along an axis.
pub open spec fn gap_along(t: Tree, id: usize, horizontal: bool) -> int {
    if horizontal {
        t[id as int].data.inner_gaps.x as int
    } else {
        t[id as int].data.inner_gaps.y as int
    }
}

/// What is left of a length for the tiles themselves, once there is a gap to each
/// sibling.
pub open spec fn available(t: Tree, id: usize, length: int, horizontal: bool) -> int {
    length - gap_along(t, id, horizontal) * tile_siblings(t, id).len()
}

/// The part of a pixel that may be missing: one in 2^14, counted as shares of a pixel are. Shares
/// are rounded, and what a share falls short of by that is not to cost a whole pixel.
pub const PIXEL_TOLERANCE: i64 = 65536;

/// The pixels that a share of a length comes to: as many as it fills, within the tolerance.
pub open spec fn share_pixels(share: int, length: int) -> int {
    let filled = if share * length >= 0 {
        (share * length + PIXEL_TOLERANCE) / (WHOLE as int)
    } else {
        -((-(share * length) + PIXEL_TOLERANCE) / (WHOLE as int))
    };
    int_max(i32::MIN as int, int_min(filled, i32::MAX as int))
}

/// The length of a tile inside a container of the given length.
pub open spec fn tile_length(t: Tree, id: usize, length: int, horizontal: bool) -> int {
    share_pixels(share_of(t, id) as int, available(t, id, length, horizontal))
}

/// Where the tile at `k` starts inside a container of the given length.
pub open spec fn tile_start(
    t: Tree,
    ids: Seq<usize>,
    k: int,
    length: int,
    horizontal: bool,
) -> int
    decreases k,
{
    if k <= 0 {
        0
    } else {
        tile_start(t, ids, k - 1, length, horizontal) + tile_length(
            t,
            ids[k - 1],
            length,
            horizontal,
        ) + gap_along(t, ids[k], horizontal)
    }
}

/// The rectangle of a tile inside a container's rectangle, if it can be
/// represented.
pub open spec fn rect_within(t: Tree, id: usize, parent: usize, outer: Rect) -> Option<Rect> {
    let horizontal = t[parent as int].data.tiling_direction == TilingDirection::Horizontal;
    let length = length_along(outer, horizontal);
    let start = tile_start(t, tiles(t, parent), position(tiles(t, parent), id), length, horizontal);
    let own = tile_length(t, id, length, horizontal);
    let (x, y, w, h) = if horizontal {
        (outer.left + start, outer.top as int, own, outer.h())
    } else {
        (outer.left as int, outer.top + start, outer.w(), own)
    };
    if Rect::xy_fits(x, y, w, h) {
        Some(Rect::xy_spec(x, y, w, h))
    } else {
        None
    }
}

/// The rectangle of a container, looking at most `fuel` containers up.
pub open spec fn rect_fuel(t: Tree, id: usize, fuel: nat) -> Option<Rect>
    decreases fuel,
{
    let node = t[id as int];
    if node.data.kind == ContainerKind::Monitor || node.data.kind == ContainerKind::Workspace {
        Some(node.data.rect)
    } else if node.data.kind == ContainerKind::NonTilingWindow {
        Some(node.data.window.floating_placement)
    } else if fuel == 0 {
        None
    } else {
        match node.parent {
            Some(p) if is_tile(t, id) => match rect_fuel(t, p, (fuel - 1) as nat) {
                Some(outer) => rect_within(t, id, p, outer),
                None => None,
            },
            _ => None,
        }
    }
}

/// The rectangle that the layout gives a container: the area of a monitor or a
/// workspace, the placement of a window that is not tiled, and for a tile its part
/// of the container it stands in. `None` for what is not on a workspace or cannot
/// be represented.
pub open spec fn rect_of(t: Tree, id: usize) -> Option<Rect> {
    rect_fuel(t, id, t.len())
}

fn share_to_pixels(share: i64, length: i128) -> (res: i64)
    requires
        share_ok(share as int),
        -0x100_0000_0000_0000_0000 <= length <= 0x100_0000_0000_0000_0000,
    ensures
        res == share_pixels(share as int, length as int),
        i32::MIN <= res <= i32::MAX,
{
    assert(-0x0fff_ffff_ffff_ffff_ffff_ffff_ffff_ffff <= share * length
        <= 0x0fff_ffff_ffff_ffff_ffff_ffff_ffff_ffff) by (nonlinear_arith)
        requires
            -1099511627776 <= share <= 1099511627776,
            -0x100_0000_0000_0000_0000 <= length <= 0x100_0000_0000_0000_0000,
    ;
    let product: i128 = share as i128 * length;
    let quotient: i128 = if product >= 0 {
        (product + PIXEL_TOLERANCE as i128) / (WHOLE as i128)
    } else {
        -((-product + PIXEL_TOLERANCE as i128) / (WHOLE as i128))
    };
    if quotient > 2147483647 {
        2147483647
    } else if quotient < -2147483648 {
        -2147483648
    } else {
        quotient as i64
    }
}

impl Layout {
    fn gap(&self, id: usize, horizontal: bool) -> (res: i64)
        requires
            valid(self@, id),
        ensures
            res == gap_along(self@, id, horizontal),
    {
        let gaps = self.data(id).inner_gaps;
        if horizontal {
            gaps.x as i64
        } else {
            gaps.y as i64
        }
    }

    fn available_length(&self, id: usize, length: i64, horizontal: bool) -> (res: i128)
        requires
            self.wf(),
            valid(self@, id),
            -0x1_0000_0000 <= length <= 0x1_0000_0000,
        ensures
            res == available(self@, id, length as int, horizontal),
            -0x100_0000_0000_0000_0000 <= res <= 0x100_0000_0000_0000_0000,
    {
        proof {
            lemma_tile_siblings(self@, id);
        }
        let count: usize = self.tiling_siblings(id).len();
        let gap = self.gap(id, horizontal);
        assert(-0x80_0000_0000_0000_0000 <= gap * count <= 0x80_0000_0000_0000_0000) by (nonlinear_arith)
            requires
                -0x8000_0000 <= gap <= 0x8000_0000,
                0 <= count <= 1099511627776,
        ;
        length as i128 - gap as i128 * count as i128
    }

    fn tile_length_of(&self, id: usize, length: i64, horizontal: bool) -> (res: i64)
        requires
            self.wf(),
            valid(self@, id),
            -0x1_0000_0000 <= length <= 0x1_0000_0000,
        ensures
            res == tile_length(self@, id, length as int, horizontal),
            i32::MIN <= res <= i32::MAX,
    {
        assert(share_ok(self@[id as int].data.tiling_size as int));
        let rest = self.available_length(id, length, horizontal);
        share_to_pixels(self.tiling_size(id), rest)
    }

    fn rect_up_to(&self, id: usize, fuel: usize) -> (res: Option<Rect>)
        requires
            self.wf(),
            valid(self@, id),
        ensures
            res == rect_fuel(self@, id, fuel as nat),
        decreases fuel,
    {
        let data = self.data(id);
        if data.kind == ContainerKind::Monitor || data.kind == ContainerKind::Workspace {
            return Some(data.rect);
        }
        if data.kind == ContainerKind::NonTilingWindow {
            return Some(data.window.floating_placement);
        }
        if fuel == 0 || !self.is_tile(id) {
            return None;
        }
        let p = match self.parent(id) {
            Some(p) => p,
            None => {
                return None;
            },
        };
        proof {
            lemma_parent_facts(self@, id);
            lemma_tiles(self@, p);
            lemma_tiles_in(self@, self@[p as int].children);
            lemma_position(tiles(self@, p), id);
        }
        let outer = match self.rect_up_to(p, fuel - 1) {
            Some(outer) => outer,
            None => {
                return None;
            },
        };
        let horizontal = self.tiling_direction(p) == TilingDirection::Horizontal;
        let length: i64 = if horizontal {
            outer.wide_width()
        } else {
            outer.wide_height()
        };
        let ids = self.tiling_children(p);
        let place = find(&ids, id);
        let mut start: i128 = 0;
        for k in 0..place
            invariant
                self.wf(),
                ids@ == tiles(self@, p),
                place < ids.len(),
                ids.len() <= MAX_CONTAINERS,
                forall|k: int| 0 <= k < ids.len() ==> valid(self@, #[trigger] ids[k]),
                -0x1_0000_0000 <= length <= 0x1_0000_0000,
                start == tile_start(self@, ids@, k as int, length as int, horizontal),
                -(k * 0x1_0000_0000) <= start <= k * 0x1_0000_0000,
        {
            assert(valid(self@, ids[k as int]));
            assert(valid(self@, ids[k + 1]));
            start = start + self.tile_length_of(ids[k], length, horizontal) as i128 + self.gap(
                ids[k + 1],
                horizontal,
            ) as i128;
        }
        let own = self.tile_length_of(id, length, horizontal);
        // A tile that starts this far out is nowhere.
        if start < -0x100_0000_0000 || start > 0x100_0000_0000 {
            return None;
        }
        let start: i64 = start as i64;
        if horizontal {
            Rect::checked_xy(outer.left as i64 + start, outer.top as i64, own, outer.wide_height())
        } else {
            Rect::checked_xy(outer.left as i64, outer.top as i64 + start, outer.wide_width(), own)
        }
    }

    /// The rectangle that the layout gives a container.
    pub fn to_rect(&self, id: usize) -> (res: Option<Rect>)
        requires
            self.wf(),
            valid(self@, id),
        ensures
            res == rect_of(self@, id),
    {
        self.rect_up_to(id, self.len())
    }
}

/// What is left of a tile's parent for its tiles, along an axis.
pub open spec fn available_of(t: Tree, id: usize, horizontal: bool) -> Result<int, WmError> {
    match t[id as int].parent {
        None => Err(WmError::NoParent),
        Some(p) => match rect_of(t, p) {
            None => Err(WmError::OutOfRange),
            Some(rect) => {
                let rest = available(t, id, length_along(rect, horizontal), horizontal);
                if fits_i32(rest) {
                    Ok(rest)
                } else {
                    Err(WmError::OutOfRange)
                }
            },
        },
    }
}

/// The length that a tile and its siblings share: that of the parent, less the gaps
/// between them.
pub fn available_tiling_length(
    layout: &Layout,
    container: usize,
    horizontal: bool,
) -> (res: Result<i32, WmError>)
    requires
        layout.wf(),
        valid(layout@, container),
    ensures
        res matches Ok(length) ==> available_of(layout@, container, horizontal) == Ok::<
            int,
            WmError,
        >(length as int),
        res matches Err(error) ==> available_of(layout@, container, horizontal) == Err::<
            int,
            WmError,
        >(error),
{
    let p = match layout.parent(container) {
        Some(p) => p,
        None => {
            return Err(WmError::NoParent);
        },
    };
    proof {
        lemma_parent_facts(layout@, container);
    }
    let rect = match layout.to_rect(p) {
        Some(rect) => rect,
        None => {
            return Err(WmError::OutOfRange);
        },
    };
    let length: i64 = if horizontal {
        rect.wide_width()
    } else {
        rect.wide_height()
    };
    let rest = layout.available_length(container, length, horizontal);
    if -2147483648 <= rest && rest <= 2147483647 {
        Ok(rest as i32)
    } else {
        Err(WmError::OutOfRange)
    }
}

/// Neighboring tiles stand side by side: each starts one gap after the one before
/// it ends.
pub proof fn tiles_stand_side_by_side(
    t: Tree,
    parent: usize,
    outer: Rect,
    k: int,
)
    requires
        wf(t),
        valid(t, parent),
        0 <= k < tiles(t, parent).len() - 1,
        rect_within(t, tiles(t, parent)[k], parent, outer) is Some,
        rect_within(t, tiles(t, parent)[k + 1], parent, outer) is Some,
    ensures
        ({
            let horizontal = t[parent as int].data.tiling_direction == TilingDirection::Horizontal;
            let first = rect_within(t, tiles(t, parent)[k], parent, outer)->0;
            let second = rect_within(t, tiles(t, parent)[k + 1], parent, outer)->0;
            let gap = gap_along(t, tiles(t, parent)[k + 1], horizontal);
            if horizontal {
                second.left == first.right + gap && second.top == first.top && second.bottom
                    == first.bottom
            } else {
                second.top == first.bottom + gap && second.left == first.left && second.right
                    == first.right
            }
        }),
{
    lemma_tiles(t, parent);
    crate::lists::lemma_position_is(tiles(t, parent), tiles(t, parent)[k], k);
    crate::lists::lemma_position_is(tiles(t, parent), tiles(t, parent)[k + 1], k + 1);
}

/// Whether the tiles of a container have shares that add up to no more than the
/// whole, and a common gap.
pub open spec fn shares_fit(t: Tree, parent: usize, gap: int) -> bool {
    let horizontal = t[parent as int].data.tiling_direction == TilingDirection::Horizontal;
    &&& 0 <= gap
    &&& total(shares_of(t, tiles(t, parent))) <= WHOLE
    &&& forall|k: int|
        0 <= k < tiles(t, parent).len() ==> 0 <= share_of(t, #[trigger] tiles(t, parent)[k])
            <= WHOLE && gap_along(t, tiles(t, parent)[k], horizontal) == gap
}

proof fn lemma_start_bound(t: Tree, parent: usize, length: int, horizontal: bool, gap: int, k: int)
    requires
        wf(t),
        valid(t, parent),
        shares_fit(t, parent, gap),
        horizontal == (t[parent as int].data.tiling_direction == TilingDirection::Horizontal),
        0 <= k < tiles(t, parent).len(),
        0 <= length - gap * (tiles(t, parent).len() - 1),
        length <= i32::MAX,
    ensures
        ({
            let ids = tiles(t, parent);
            let rest = length - gap * (ids.len() - 1);
            &&& 0 <= tile_start(t, ids, k, length, horizontal) - k * gap
            &&& (tile_start(t, ids, k, length, horizontal) - k * gap + tile_length(
                t,
                ids[k],
                length,
                horizontal,
            )) * WHOLE <= rest * total(shares_of(t, ids).take(k + 1)) + (k + 1) * PIXEL_TOLERANCE
            &&& 0 <= tile_length(t, ids[k], length, horizontal)
        }),
    decreases k,
{
    let ids = tiles(t, parent);
    let shares = shares_of(t, ids);
    let rest = length - gap * (ids.len() - 1);
    lemma_tiles(t, parent);
    let id = ids[k];
    assert(0 <= share_of(t, ids[k]) <= WHOLE);
    assert(tile_siblings(t, id).len() == ids.len() - 1) by {
        crate::lists::lemma_without(ids, id);
        assert(ids.contains(id));
    }
    assert(available(t, id, length, horizontal) == rest);
    let s = share_of(t, id) as int;
    assert(0 <= s * rest) by (nonlinear_arith)
        requires
            0 <= s,
            0 <= rest,
    ;
    let q = (s * rest + PIXEL_TOLERANCE) / (WHOLE as int);
    assert(q * WHOLE <= s * rest + PIXEL_TOLERANCE && 0 <= q) by (nonlinear_arith)
        requires
            q == (s * rest + PIXEL_TOLERANCE) / (WHOLE as int),
            PIXEL_TOLERANCE == 65536,
            0 <= s * rest,
            WHOLE == 1073741824,
    ;
    assert(tile_length(t, id, length, horizontal) <= q);
    crate::shares::lemma_total_take(shares, k);
    let before = total(shares.take(k));
    assert(rest * (before + s) == rest * before + s * rest) by (nonlinear_arith);
    if k > 0 {
        lemma_start_bound(t, parent, length, horizontal, gap, k - 1);
        assert(shares.take(k - 1 + 1) =~= shares.take(k));
        assert(gap_along(t, ids[k], horizontal) == gap);
        let a = tile_start(t, ids, k, length, horizontal) - k * gap;
        let b = tile_start(t, ids, k - 1, length, horizontal) - (k - 1) * gap + tile_length(
            t,
            ids[k - 1],
            length,
            horizontal,
        );
        assert(a == b) by (nonlinear_arith)
            requires
                a == tile_start(t, ids, k, length, horizontal) - k * gap,
                b == tile_start(t, ids, k - 1, length, horizontal) - (k - 1) * gap + tile_length(
                    t,
                    ids[k - 1],
                    length,
                    horizontal,
                ),
                tile_start(t, ids, k, length, horizontal) == tile_start(
                    t,
                    ids,
                    k - 1,
                    length,
                    horizontal,
                ) + tile_length(t, ids[k - 1], length, horizontal) + gap,
        ;
    } else {
        assert(shares.take(0) =~= Seq::<i64>::empty());
        assert(rest * 0 == 0 && 0 * gap == 0) by (nonlinear_arith);
    }
}

/// Tiles whose shares add up to no more than the whole stay inside the container
/// they stand in, unless there are so many that the tolerance makes up a pixel.
pub proof fn tiles_stay_inside(t: Tree, parent: usize, outer: Rect, gap: int, k: int)
    requires
        wf(t),
        valid(t, parent),
        shares_fit(t, parent, gap),
        outer.measurable(),
        0 <= outer.w(),
        0 <= outer.h(),
        0 <= k < tiles(t, parent).len() < 16384,
        ({
            let horizontal = t[parent as int].data.tiling_direction == TilingDirection::Horizontal;
            gap * (tiles(t, parent).len() - 1) <= length_along(outer, horizontal)
        }),
    ensures
        ({
            let inner = rect_within(t, tiles(t, parent)[k], parent, outer);
            &&& inner is Some
            &&& outer.left <= inner->0.left <= inner->0.right <= outer.right
            &&& outer.top <= inner->0.top <= inner->0.bottom <= outer.bottom
        }),
{
    let horizontal = t[parent as int].data.tiling_direction == TilingDirection::Horizontal;
    let length = length_along(outer, horizontal);
    let ids = tiles(t, parent);
    let n = ids.len();
    lemma_tiles(t, parent);
    crate::lists::lemma_position_is(ids, ids[k], k);
    lemma_start_bound(t, parent, length, horizontal, gap, k);
    let shares = shares_of(t, ids);
    let rest = length - gap * (n - 1);
    let start = tile_start(t, ids, k, length, horizontal);
    let own = tile_length(t, ids[k], length, horizontal);
    let upto = total(shares.take(k + 1));
    lemma_prefix_total(shares, k + 1);
    assert(start - k * gap + own <= rest) by (nonlinear_arith)
        requires
            (start - k * gap + own) * WHOLE <= rest * upto + (k + 1) * PIXEL_TOLERANCE,
            upto <= WHOLE,
            0 <= rest,
            0 <= k < 16383,
            WHOLE == 1073741824,
            PIXEL_TOLERANCE == 65536,
    ;
    assert(0 <= k * gap && k * gap <= gap * (n - 1)) by (nonlinear_arith)
        requires
            0 <= k <= n - 1,
            0 <= gap,
    ;
}

proof fn lemma_prefix_total(s: Seq<i64>, k: int)
    requires
        0 <= k <= s.len(),
        forall|i: int| 0 <= i < s.len() ==> 0 <= #[trigger] s[i],
    ensures
        total(s.take(k)) <= total(s),
    decreases s.len() - k,
{
    if k == s.len() {
        assert(s.take(k) =~= s);
    } else {
        lemma_prefix_total(s, k + 1);
        crate::shares::lemma_total_take(s, k);
    }
}

/// The first tile of a container starts where the container does, and every tile spans the
/// container from side to side across its axis.
pub proof fn tiles_start_and_span(t: Tree, parent: usize, outer: Rect, k: int)
    requires
        wf(t),
        valid(t, parent),
        0 <= k < tiles(t, parent).len(),
    ensures
        rect_within(t, tiles(t, parent)[k], parent, outer) matches Some(rect) ==> {
            let horizontal = t[parent as int].data.tiling_direction == TilingDirection::Horizontal;
            &&& horizontal ==> rect.top == outer.top && rect.bottom == outer.bottom
            &&& !horizontal ==> rect.left == outer.left && rect.right == outer.right
            &&& horizontal && k == 0 ==> rect.left == outer.left
            &&& !horizontal && k == 0 ==> rect.top == outer.top
        },
{
    lemma_tiles(t, parent);
    crate::lists::lemma_position_is(tiles(t, parent), tiles(t, parent)[k], k);
}

} // verus!
