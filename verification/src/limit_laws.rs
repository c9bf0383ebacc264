//! Where edges stop.

use vstd::prelude::*;

use crate::edge_resize::{
    divider, divider_at, edge_change, edge_resized, lemma_neighbors, limits_of, neighbors_of,
};
use crate::errors::WmError;
use crate::frame_laws::same_but_shares;
use crate::lists::{lemma_position, lemma_without, position};
use crate::minimum_laws::{lemma_total_below, share_a_whole};
use crate::placement::{
    available, available_of, gap_along, length_along, rect_fuel, rect_of, rect_within, share_pixels,
    tile_length, tile_start, PIXEL_TOLERANCE,
};
use crate::resize_laws::{
    lemma_divider, lemma_edge_untouched, lemma_end_between, lemma_share_a_whole,
    lemma_start_untouched, moved_edge_changes_shares_only, moved_edge_keeps_the_opposite_side,
    sound_at_divider, trailing_move_keeps_start,
};
use crate::shares::{lemma_total_nonnegative, lemma_total_take, part, taken, total, WHOLE};
use crate::tiling_minimums::{
    capacities_of, change_weights, floor_share, minimum_fuel, minimum_of, needed_by_all,
    resize_change, same_axis,
};
use crate::tree::{
    is_tile, kind, ranked, share_of, shares_of, tile_siblings, tiles, valid, wf, with_shares,
    ContainerKind, Tree,
};
use crate::tree_laws::{
    lemma_children, lemma_parent_facts, lemma_tiles, lemma_tiles_in, lemma_tiles_same_kinds,
    lemma_with_shares,
};

verus! {

proof fn lemma_floor_between(a: int, b: int, bound: int)
    requires
        b > 0,
    ensures
        a <= bound * b ==> a / b <= bound,
        a >= bound * b ==> a / b >= bound,
{
    let q = a / b;
    vstd::arithmetic::div_mod::lemma_fundamental_div_mod(a, b);
    vstd::arithmetic::div_mod::lemma_mod_bound(a, b);
    let r = a % b;
    if a <= bound * b {
        assert(q <= bound) by (nonlinear_arith)
            requires
                a == b * q + r,
                0 <= r < b,
                a <= bound * b,
                b > 0,
        ;
    }
    if a >= bound * b {
        assert(q >= bound) by (nonlinear_arith)
            requires
                a == b * q + r,
                0 <= r < b,
                a >= bound * b,
                b > 0,
        ;
    }
}

/// A change that is asked for in pixels is made within the bounds of a share, and cut to them
/// beyond.
proof fn lemma_change_at_bounds(
    size: int,
    asked: int,
    minimum: int,
    capacity: int,
    pixels: int,
    available: int,
)
    requires
        available > 0,
        asked == pixels / available,
        0 <= minimum <= size,
        0 <= capacity,
        size + capacity <= WHOLE,
    ensures
        ({
            let change = resize_change(size, size + asked, minimum, capacity);
            &&& minimum - size <= change <= capacity
            &&& (minimum - size) * available <= pixels <= capacity * available ==> change == asked
            &&& pixels > capacity * available ==> change == capacity
            &&& pixels < (minimum - size) * available ==> change == minimum - size
        }),
{
    lemma_floor_between(pixels, available, capacity);
    lemma_floor_between(pixels, available, minimum - size);
}

/// The bounds of a tile at a divider: what it can give up, and what its neighbors can.
pub proof fn lemma_bounds(t: Tree, c: usize, horizontal: bool, leading: bool)
    requires
        wf(t),
        valid(t, c),
        is_tile(t, c),
        t[c as int].parent is Some,
        sound_at_divider(t, c, leading),
        available_of(t, c, horizontal) matches Ok(available) && available > 0,
    ensures
        ({
            let available = available_of(t, c, horizontal)->Ok_0;
            let neighbors = neighbors_of(t, c, t[c as int].parent->0, leading);
            let capacities = capacities_of(t, neighbors, horizontal, available);
            let size = share_of(t, c);
            &&& 0 <= floor_share(t, c, horizontal, available) <= size
            &&& 0 <= total(capacities)
            &&& size + total(capacities) <= WHOLE
            &&& forall|k: int|
                0 <= k < capacities.len() ==> 0 <= #[trigger] capacities[k] <= WHOLE
                    && capacities[k] == share_of(t, neighbors[k]) - floor_share(
                    t,
                    neighbors[k],
                    horizontal,
                    available,
                )
        }),
{
    let available = available_of(t, c, horizontal)->Ok_0;
    let neighbors = neighbors_of(t, c, t[c as int].parent->0, leading);
    let capacities = capacities_of(t, neighbors, horizontal, available);
    let shares = shares_of(t, neighbors);
    assert forall|k: int| 0 <= k < shares.len() implies 0 <= #[trigger] shares[k] by {
        assert(0 <= share_of(t, neighbors[k]));
    }
    lemma_total_nonnegative(shares);
    assert forall|k: int| 0 <= k < capacities.len() implies 0 <= #[trigger] capacities[k]
        && capacities[k] <= shares[k] && capacities[k] == share_of(t, neighbors[k]) - floor_share(
        t,
        neighbors[k],
        horizontal,
        available,
    ) by {
        assert(0 <= share_of(t, neighbors[k]));
        assert(shares[k] <= total(shares));
    }
    lemma_total_nonnegative(capacities);
    lemma_total_below(capacities, shares);
}

/// The share of a tile at a divider after its edge was moved.
#[verifier::spinoff_prover]
proof fn lemma_edge_share(t: Tree, id: usize, horizontal: bool, leading: bool, delta: int)
    requires
        wf(t),
        valid(t, id),
        is_tile(t, id),
        divider(t, id, horizontal, leading) matches Some(c) ==> sound_at_divider(t, c, leading),
    ensures
        edge_resized(t, id, horizontal, leading, delta) matches Ok(Some((u, p))) ==> {
            let c = divider(t, id, horizontal, leading)->0;
            let available = available_of(t, c, horizontal)->Ok_0;
            let neighbors = neighbors_of(t, c, p, leading);
            let capacities = capacities_of(t, neighbors, horizontal, available);
            let minimum = floor_share(t, c, horizontal, available);
            let asked = edge_change(delta, leading, available);
            let size = share_of(t, c) as int;
            let change = resize_change(size, size + asked, minimum, total(capacities));
            let after = taken(
                shares_of(t, neighbors),
                change,
                change_weights(change, shares_of(t, neighbors), capacities),
            );
            &&& divider(t, id, horizontal, leading) is Some
            &&& valid(t, c) && is_tile(t, c) && t[c as int].parent == Some(p)
            &&& available_of(t, c, horizontal) is Ok && available > 0
            &&& share_of(u, c) == size + change
            &&& minimum - size <= change <= total(capacities)
            &&& forall|k: int|
                0 <= k < neighbors.len() ==> share_of(u, #[trigger] neighbors[k]) == after[k]
        },
{
    lemma_divider(t, id, horizontal, leading, t.len());
    if let Ok(Some((u, p))) = edge_resized(t, id, horizontal, leading, delta) {
        let c = divider(t, id, horizontal, leading)->0;
        let neighbors = neighbors_of(t, c, p, leading);
        lemma_neighbors(t, c, leading);
        let available = available_of(t, c, horizontal)->Ok_0;
        lemma_bounds(t, c, horizontal, leading);
        let capacities = capacities_of(t, neighbors, horizontal, available);
        let minimum = floor_share(t, c, horizontal, available);
        let asked = edge_change(delta, leading, available);
        let size = share_of(t, c) as int;
        let change = resize_change(size, size + asked, minimum, total(capacities));
        let after = taken(
            shares_of(t, neighbors),
            change,
            change_weights(change, shares_of(t, neighbors), capacities),
        );
        lemma_with_shares(t, neighbors, after);
        let v = with_shares(t, neighbors, after);
        assert(v[c as int] == t[c as int]);
        assert forall|k: int| 0 <= k < neighbors.len() implies share_of(u, #[trigger] neighbors[k])
            == after[k] by {
            assert(neighbors.contains(neighbors[k]));
            assert(share_of(v, neighbors[k]) == after[k]);
        }
    }
}

/// By how much the tile at a divider has grown, seen as a displacement of its edge.
pub open spec fn displacement(t: Tree, u: Tree, c: usize, leading: bool) -> int {
    if leading {
        share_of(t, c) - share_of(u, c)
    } else {
        share_of(u, c) - share_of(t, c)
    }
}

/// The pixels that an edge is moved outwards, times a whole share.
spec fn outward(delta: int, leading: bool) -> int {
    (if leading {
        -delta
    } else {
        delta
    }) * WHOLE
}

/// The limits of an edge are where the layout stops it. Within them the edge moves as far as asked
/// for, and beyond them exactly to the limit.
#[verifier::spinoff_prover]
pub proof fn limits_are_where_the_layout_stops(
    t: Tree,
    id: usize,
    horizontal: bool,
    leading: bool,
    delta: int,
)
    requires
        wf(t),
        valid(t, id),
        is_tile(t, id),
        divider(t, id, horizontal, leading) matches Some(c) ==> sound_at_divider(t, c, leading),
    ensures
        edge_resized(t, id, horizontal, leading, delta) matches Ok(Some((u, p))) ==> {
            let c = divider(t, id, horizontal, leading)->0;
            let available = available_of(t, c, horizontal)->Ok_0;
            let limits = limits_of(t, id, horizontal, leading)->Ok_0;
            &&& limits_of(t, id, horizontal, leading) is Ok
            &&& limits.0 <= 0 <= limits.1
            &&& limits.0 <= delta * WHOLE <= limits.1 ==> share_of(u, c) - share_of(t, c)
                == edge_change(delta, leading, available)
            &&& delta * WHOLE < limits.0 ==> displacement(t, u, c, leading) * available == limits.0
            &&& delta * WHOLE > limits.1 ==> displacement(t, u, c, leading) * available == limits.1
        },
{
    lemma_edge_share(t, id, horizontal, leading, delta);
    if let Ok(Some((u, p))) = edge_resized(t, id, horizontal, leading, delta) {
        let c = divider(t, id, horizontal, leading)->0;
        lemma_bounds(t, c, horizontal, leading);
        let available = available_of(t, c, horizontal)->Ok_0;
        let minimum = floor_share(t, c, horizontal, available);
        let capacity = total(
            capacities_of(t, neighbors_of(t, c, p, leading), horizontal, available),
        );
        let size = share_of(t, c) as int;
        let asked = edge_change(delta, leading, available);
        lemma_change_at_bounds(
            size,
            asked,
            minimum,
            capacity,
            outward(delta, leading),
            available,
        );
        lemma_limits_arith(size, minimum, capacity, available, delta);
    }
}

proof fn lemma_limits_arith(size: int, minimum: int, capacity: int, available: int, delta: int)
    requires
        available > 0,
        minimum <= size,
        0 <= capacity,
    ensures
        (size - minimum) * available == -((minimum - size) * available),
        (-capacity) * available == -(capacity * available),
        (-(minimum - size)) * available == (size - minimum) * available,
        (-delta) * WHOLE == -(delta * WHOLE),
        0 <= capacity * available,
        0 <= (size - minimum) * available,
{
    assert((size - minimum) * available == -((minimum - size) * available)) by (nonlinear_arith);
    assert((-capacity) * available == -(capacity * available)) by (nonlinear_arith);
    assert(0 <= capacity * available) by (nonlinear_arith)
        requires
            available > 0,
            0 <= capacity,
    ;
    assert(0 <= (size - minimum) * available) by (nonlinear_arith)
        requires
            available > 0,
            minimum <= size,
    ;
}

/// Whether two trees differ in nothing but the shares of the tiles of one container.
pub open spec fn differ_in_row(t: Tree, u: Tree, p: usize) -> bool {
    &&& u.len() == t.len()
    &&& same_but_shares(t, u)
    &&& forall|i: int|
        0 <= i < t.len() ==> (#[trigger] u[i]).parent == t[i].parent && u[i].children
            == t[i].children
    &&& forall|i: int| 0 <= i < t.len() && t[i].parent != Some(p) ==> #[trigger] u[i] == t[i]
}

pub proof fn lemma_row_tiles(t: Tree, u: Tree, p: usize, q: usize)
    requires
        wf(t),
        valid(t, q),
        differ_in_row(t, u, p),
    ensures
        tiles(u, q) == tiles(t, q),
{
    lemma_children(t, q);
    let all = t[q as int].children;
    assert(u[q as int].children == all);
    assert forall|k: int| 0 <= k < all.len() implies kind(t, #[trigger] all[k]) == kind(
        u,
        all[k],
    ) by {
        assert(valid(t, t[q as int].children[k]));
        assert(u[all[k] as int].data.kind == t[all[k] as int].data.kind);
    }
    lemma_tiles_same_kinds(t, u, all);
}

/// What is not below a row stands where it stood when shares of the row change.
pub proof fn lemma_rect_above_row(
    t: Tree,
    u: Tree,
    p: usize,
    id: usize,
    fuel: nat,
    rank: Seq<int>,
)
    requires
        wf(t),
        valid(t, p),
        valid(t, id),
        differ_in_row(t, u, p),
        ranked(t, rank),
        rank[id as int] >= rank[p as int],
    ensures
        rect_fuel(u, id, fuel) == rect_fuel(t, id, fuel),
    decreases fuel,
{
    assert(t[id as int].parent != Some(p));
    assert(u[id as int] == t[id as int]);
    if fuel > 0 && is_tile(t, id) {
        if let Some(q) = t[id as int].parent {
            assert(rank[id as int] < rank[q as int]);
            lemma_rect_above_row(t, u, p, q, (fuel - 1) as nat, rank);
            if let Some(outer) = rect_fuel(t, q, (fuel - 1) as nat) {
                lemma_parent_facts(t, id);
                lemma_tiles(t, q);
                lemma_tiles_in(t, t[q as int].children);
                lemma_row_tiles(t, u, p, q);
                assert(u[q as int] == t[q as int]);
                let ids = tiles(t, q);
                assert(ids.contains(id));
                lemma_position(ids, id);
                let k = position(ids, id);
                assert forall|j: int| 0 <= j < k implies u[#[trigger] tiles(t, q)[j] as int]
                    == t[tiles(t, q)[j] as int] by {
                    assert(t[tiles(t, q)[j] as int].parent == Some(q));
                }
                let horizontal = same_axis(t, q, true);
                let length = length_along(outer, horizontal);
                lemma_start_untouched(t, u, q, k, length, horizontal);
                assert(tile_siblings(u, id) == tile_siblings(t, id));
                assert(rect_within(u, id, q, outer) == rect_within(t, id, q, outer));
            }
        }
    }
}

/// What is below a row needs the same room when shares of the row change.
proof fn lemma_minimum_below_row(
    t: Tree,
    u: Tree,
    p: usize,
    id: usize,
    horizontal: bool,
    fuel: nat,
    rank: Seq<int>,
)
    requires
        wf(t),
        valid(t, p),
        valid(t, id),
        differ_in_row(t, u, p),
        ranked(t, rank),
        rank[id as int] < rank[p as int],
    ensures
        minimum_fuel(u, id, horizontal, fuel) == minimum_fuel(t, id, horizontal, fuel),
    decreases fuel, 0nat,
{
    assert(u[id as int].data.kind == t[id as int].data.kind);
    assert(u[id as int].data.window == t[id as int].data.window);
    assert(u[id as int].data.tiling_direction == t[id as int].data.tiling_direction);
    assert(u[id as int].data.inner_gaps == t[id as int].data.inner_gaps);
    if kind(t, id) == ContainerKind::Split && fuel > 0 {
        lemma_row_tiles(t, u, p, id);
        lemma_tiles(t, id);
        let ids = tiles(t, id);
        assert forall|k: int| 0 <= k < ids.len() implies valid(t, #[trigger] ids[k]) && t[ids[k]
            as int].parent == Some(id) by {
            assert(valid(t, tiles(t, id)[k]));
        }
        lemma_needed_below_row(
            t,
            u,
            p,
            id,
            ids,
            horizontal,
            same_axis(t, id, horizontal),
            (fuel - 1) as nat,
            rank,
        );
    }
}

proof fn lemma_needed_below_row(
    t: Tree,
    u: Tree,
    p: usize,
    id: usize,
    ids: Seq<usize>,
    horizontal: bool,
    along: bool,
    fuel: nat,
    rank: Seq<int>,
)
    requires
        wf(t),
        valid(t, p),
        valid(t, id),
        differ_in_row(t, u, p),
        ranked(t, rank),
        rank[id as int] < rank[p as int],
        forall|k: int|
            0 <= k < ids.len() ==> valid(t, #[trigger] ids[k]) && t[ids[k] as int].parent == Some(
                id,
            ),
    ensures
        needed_by_all(u, ids, horizontal, along, fuel) == needed_by_all(
            t,
            ids,
            horizontal,
            along,
            fuel,
        ),
    decreases fuel, ids.len() + 1,
{
    if ids.len() > 0 {
        let front = ids.drop_last();
        assert forall|k: int| 0 <= k < front.len() implies valid(t, #[trigger] front[k])
            && t[front[k] as int].parent == Some(id) by {
            assert(valid(t, ids[k]));
        }
        lemma_needed_below_row(t, u, p, id, front, horizontal, along, fuel, rank);
        let last = ids[ids.len() - 1];
        assert(valid(t, last) && t[last as int].parent == Some(id));
        assert(rank[last as int] < rank[id as int]);
        lemma_minimum_below_row(t, u, p, last, horizontal, fuel, rank);
        assert(u[last as int] == t[last as int]);
    }
}

/// The divider of an edge does not depend on shares.
proof fn lemma_same_divider(
    t: Tree,
    u: Tree,
    p: usize,
    id: usize,
    horizontal: bool,
    leading: bool,
    fuel: nat,
)
    requires
        wf(t),
        valid(t, id),
        differ_in_row(t, u, p),
    ensures
        divider_at(u, id, horizontal, leading, fuel) == divider_at(
            t,
            id,
            horizontal,
            leading,
            fuel,
        ),
    decreases fuel,
{
    assert(u[id as int].parent == t[id as int].parent);
    if let Some(q) = t[id as int].parent {
        lemma_parent_facts(t, id);
        lemma_row_tiles(t, u, p, q);
        assert(u[q as int].data.tiling_direction == t[q as int].data.tiling_direction);
        assert(u[q as int].data.kind == t[q as int].data.kind);
        if fuel > 0 {
            lemma_same_divider(t, u, p, q, horizontal, leading, (fuel - 1) as nat);
        }
    }
}

/// When all that can be given is taken, each gives all it can.
proof fn lemma_all_taken(weights: Seq<i64>, k: int)
    requires
        0 <= k < weights.len(),
        total(weights) > 0,
    ensures
        part(total(weights), weights, k) == weights[k],
{
    let w = total(weights);
    lemma_total_take(weights, k);
    let a = total(weights.take(k));
    let b = total(weights.take(k + 1));
    assert((w * a) / w == a) by (nonlinear_arith)
        requires
            w > 0,
    ;
    assert((w * b) / w == b) by (nonlinear_arith)
        requires
            w > 0,
    ;
}

/// What moving an edge leaves as it was around the divider.
#[verifier::spinoff_prover]
proof fn lemma_edge_row(t: Tree, id: usize, horizontal: bool, leading: bool, delta: int)
    requires
        wf(t),
        valid(t, id),
        is_tile(t, id),
    ensures
        edge_resized(t, id, horizontal, leading, delta) matches Ok(Some((u, p))) ==> {
            let c = divider(t, id, horizontal, leading)->0;
            &&& differ_in_row(t, u, p)
            &&& divider(t, id, horizontal, leading) is Some
            &&& divider(u, id, horizontal, leading) == divider(t, id, horizontal, leading)
            &&& tiles(u, p) == tiles(t, p)
            &&& t[c as int].parent == Some(p) && u[c as int].parent == Some(p)
            &&& rect_of(u, p) == rect_of(t, p)
            &&& available_of(u, c, horizontal) == available_of(t, c, horizontal)
            &&& forall|x: usize|
                #![trigger minimum_of(u, x, horizontal)]
                valid(t, x) && t[x as int].parent == Some(p) ==> minimum_of(u, x, horizontal)
                    == minimum_of(t, x, horizontal)
        },
{
    lemma_divider(t, id, horizontal, leading, t.len());
    lemma_edge_untouched(t, id, horizontal, leading, delta);
    moved_edge_changes_shares_only(t, id, horizontal, leading, delta);
    if let Ok(Some((u, p))) = edge_resized(t, id, horizontal, leading, delta) {
        let c = divider(t, id, horizontal, leading)->0;
        let neighbors = neighbors_of(t, c, p, leading);
        lemma_parent_facts(t, c);
        lemma_tiles(t, p);
        lemma_tiles_in(t, t[p as int].children);
        let ids = tiles(t, p);
        assert(ids.contains(c));
        lemma_position(ids, c);
        let place = position(ids, c);
        assert forall|i: int| 0 <= i < t.len() && t[i].parent != Some(p) implies #[trigger] u[i]
            == t[i] by {
            if neighbors.contains(i as usize) {
                let m = choose|m: int| 0 <= m < neighbors.len() && neighbors[m] == i as usize;
                if leading {
                    assert(neighbors[m] == ids[m]);
                } else {
                    assert(neighbors[m] == ids[m + place + 1]);
                }
                assert(ids.contains(neighbors[m]));
            }
        }
        assert(differ_in_row(t, u, p));
        let rank = choose|rank: Seq<int>| ranked(t, rank);
        lemma_same_divider(t, u, p, id, horizontal, leading, t.len());
        lemma_row_tiles(t, u, p, p);
        lemma_rect_above_row(t, u, p, p, t.len(), rank);
        assert(u[c as int].parent == t[c as int].parent);
        assert(u[c as int].data.inner_gaps == t[c as int].data.inner_gaps);
        assert(tile_siblings(u, c) == tile_siblings(t, c));
        assert forall|x: usize|
            #![trigger minimum_of(u, x, horizontal)]
            valid(t, x) && t[x as int].parent == Some(p) implies minimum_of(u, x, horizontal)
            == minimum_of(t, x, horizontal) by {
            assert(t[x as int].parent is Some);
            lemma_minimum_below_row(t, u, p, x, horizontal, t.len(), rank);
        }
    }
}

/// The sum of nothing but zeros.
proof fn lemma_total_zeros(s: Seq<i64>)
    requires
        forall|k: int| 0 <= k < s.len() ==> #[trigger] s[k] == 0,
    ensures
        total(s) == 0,
    decreases s.len(),
{
    if s.len() > 0 {
        let front = s.drop_last();
        assert forall|k: int| 0 <= k < front.len() implies #[trigger] front[k] == 0 by {
            assert(s[k] == 0);
        }
        lemma_total_zeros(front);
        assert(s[s.len() - 1] == 0);
    }
}

/// Tiles have nothing left to give once each is at its floor.
proof fn lemma_no_capacity(
    t: Tree,
    u: Tree,
    neighbors: Seq<usize>,
    horizontal: bool,
    available: int,
)
    requires
        available > 0,
        forall|k: int|
            0 <= k < neighbors.len() ==> {
                &&& minimum_of(u, #[trigger] neighbors[k], horizontal) == minimum_of(
                    t,
                    neighbors[k],
                    horizontal,
                )
                &&& share_of(u, neighbors[k]) == floor_share(
                    t,
                    neighbors[k],
                    horizontal,
                    available,
                )
            },
    ensures
        total(capacities_of(u, neighbors, horizontal, available)) == 0,
{
    let capacities = capacities_of(u, neighbors, horizontal, available);
    assert forall|k: int| 0 <= k < capacities.len() implies #[trigger] capacities[k] == 0 by {
        let x = neighbors[k];
        assert(minimum_of(u, neighbors[k], horizontal) == minimum_of(t, x, horizontal));
        assert(floor_share(u, x, horizontal, available) == share_of(u, x));
    }
    lemma_total_zeros(capacities);
}

/// Where an edge is moved outwards beyond its limit, the neighbors have nothing left to give.
#[verifier::spinoff_prover]
proof fn lemma_neighbors_at_floor(
    t: Tree,
    id: usize,
    horizontal: bool,
    leading: bool,
    delta: int,
)
    requires
        wf(t),
        valid(t, id),
        is_tile(t, id),
        divider(t, id, horizontal, leading) matches Some(c) ==> sound_at_divider(t, c, leading),
        edge_resized(t, id, horizontal, leading, delta) matches Ok(Some((u, p))) && {
            let c = divider(t, id, horizontal, leading)->0;
            let available = available_of(t, c, horizontal)->Ok_0;
            outward(delta, leading) > total(
                capacities_of(t, neighbors_of(t, c, p, leading), horizontal, available),
            ) * available
        },
    ensures
        ({
            let (u, p) = edge_resized(t, id, horizontal, leading, delta)->Ok_0->0;
            let c = divider(t, id, horizontal, leading)->0;
            let available = available_of(t, c, horizontal)->Ok_0;
            total(capacities_of(u, neighbors_of(t, c, p, leading), horizontal, available)) == 0
        }),
{
    lemma_edge_share(t, id, horizontal, leading, delta);
    lemma_edge_row(t, id, horizontal, leading, delta);
    let (u, p) = edge_resized(t, id, horizontal, leading, delta)->Ok_0->0;
    let c = divider(t, id, horizontal, leading)->0;
    lemma_bounds(t, c, horizontal, leading);
    lemma_row_neighbors(t, c, leading);
    let available = available_of(t, c, horizontal)->Ok_0;
    let neighbors = neighbors_of(t, c, p, leading);
    let capacities = capacities_of(t, neighbors, horizontal, available);
    let capacity = total(capacities);
    let minimum = floor_share(t, c, horizontal, available);
    let size = share_of(t, c) as int;
    let asked = edge_change(delta, leading, available);
    lemma_change_at_bounds(size, asked, minimum, capacity, outward(delta, leading), available);
    let shares = shares_of(t, neighbors);
    let after = taken(shares, capacity, change_weights(capacity, shares, capacities));
    assert forall|k: int| 0 <= k < neighbors.len() implies {
        &&& minimum_of(u, #[trigger] neighbors[k], horizontal) == minimum_of(
            t,
            neighbors[k],
            horizontal,
        )
        &&& share_of(u, neighbors[k]) == floor_share(t, neighbors[k], horizontal, available)
    } by {
        assert(valid(t, neighbors[k]) && t[neighbors[k] as int].parent == Some(p));
        assert(0 <= capacities[k] && capacities[k] == share_of(t, neighbors[k]) - floor_share(
            t,
            neighbors[k],
            horizontal,
            available,
        ));
        lemma_all_taken(capacities, k);
        assert(shares[k] == share_of(t, neighbors[k]));
        assert(share_of(u, neighbors[k]) == after[k]);
        assert(0 <= share_of(t, neighbors[k]));
    }
    lemma_no_capacity(t, u, neighbors, horizontal, available);
}

/// Tiles whose shares are not negative have no negative capacity.
proof fn lemma_capacities_nonnegative(
    t: Tree,
    neighbors: Seq<usize>,
    horizontal: bool,
    available: int,
)
    requires
        available > 0,
        forall|k: int| 0 <= k < neighbors.len() ==> 0 <= share_of(t, #[trigger] neighbors[k]),
    ensures
        total(capacities_of(t, neighbors, horizontal, available)) >= 0,
{
    let left = capacities_of(t, neighbors, horizontal, available);
    assert forall|k: int| 0 <= k < left.len() implies 0 <= #[trigger] left[k] by {
        assert(0 <= share_of(t, neighbors[k]));
        assert(0 <= floor_share(t, neighbors[k], horizontal, available) <= share_of(
            t,
            neighbors[k],
        ));
    }
    lemma_total_nonnegative(left);
}

/// The shares at a divider after an edge was moved are sound.
#[verifier::spinoff_prover]
proof fn lemma_sound_after(t: Tree, id: usize, horizontal: bool, leading: bool, delta: int)
    requires
        wf(t),
        valid(t, id),
        is_tile(t, id),
        divider(t, id, horizontal, leading) matches Some(c) ==> sound_at_divider(t, c, leading),
    ensures
        edge_resized(t, id, horizontal, leading, delta) matches Ok(Some((u, p))) ==> {
            let c = divider(t, id, horizontal, leading)->0;
            let available = available_of(t, c, horizontal)->Ok_0;
            let neighbors = neighbors_of(t, c, p, leading);
            &&& 0 <= total(capacities_of(u, neighbors, horizontal, available))
            &&& 0 <= share_of(u, c) <= WHOLE
            &&& floor_share(u, c, horizontal, available) <= share_of(u, c)
        },
{
    lemma_edge_share(t, id, horizontal, leading, delta);
    moved_edge_keeps_the_opposite_side(t, id, horizontal, leading, delta);
    if let Ok(Some((u, p))) = edge_resized(t, id, horizontal, leading, delta) {
        let c = divider(t, id, horizontal, leading)->0;
        lemma_bounds(t, c, horizontal, leading);
        let available = available_of(t, c, horizontal)->Ok_0;
        let neighbors = neighbors_of(t, c, p, leading);
        assert forall|k: int| 0 <= k < neighbors.len() implies 0 <= share_of(
            u,
            #[trigger] neighbors[k],
        ) by {
            assert(0 <= share_of(t, neighbors[k]));
            assert(0 <= floor_share(t, neighbors[k], horizontal, available));
        }
        lemma_capacities_nonnegative(u, neighbors, horizontal, available);
    }
}

/// Where an edge is moved inwards beyond its limit, its tile is at its floor.
proof fn lemma_tile_at_floor(t: Tree, id: usize, horizontal: bool, leading: bool, delta: int)
    requires
        wf(t),
        valid(t, id),
        is_tile(t, id),
        divider(t, id, horizontal, leading) matches Some(c) ==> sound_at_divider(t, c, leading),
    ensures
        edge_resized(t, id, horizontal, leading, delta) matches Ok(Some((u, p))) ==> {
            let c = divider(t, id, horizontal, leading)->0;
            let available = available_of(t, c, horizontal)->Ok_0;
            let minimum = floor_share(t, c, horizontal, available);
            outward(delta, leading) < (minimum - share_of(t, c)) * available ==> floor_share(
                u,
                c,
                horizontal,
                available,
            ) == share_of(u, c)
        },
{
    lemma_edge_share(t, id, horizontal, leading, delta);
    lemma_edge_row(t, id, horizontal, leading, delta);
    if let Ok(Some((u, p))) = edge_resized(t, id, horizontal, leading, delta) {
        let c = divider(t, id, horizontal, leading)->0;
        lemma_bounds(t, c, horizontal, leading);
        let available = available_of(t, c, horizontal)->Ok_0;
        let capacity = total(
            capacities_of(t, neighbors_of(t, c, p, leading), horizontal, available),
        );
        lemma_change_at_bounds(
            share_of(t, c) as int,
            edge_change(delta, leading, available),
            floor_share(t, c, horizontal, available),
            capacity,
            outward(delta, leading),
            available,
        );
        assert(minimum_of(u, c, horizontal) == minimum_of(t, c, horizontal));
    }
}

/// The neighbors of a tile stand in the same container.
proof fn lemma_row_neighbors(t: Tree, c: usize, leading: bool)
    requires
        wf(t),
        valid(t, c),
        is_tile(t, c),
        t[c as int].parent is Some,
    ensures
        ({
            let p = t[c as int].parent->0;
            let ids = neighbors_of(t, c, p, leading);
            forall|k: int|
                0 <= k < ids.len() ==> valid(t, #[trigger] ids[k]) && t[ids[k] as int].parent
                    == Some(p)
        }),
{
    let p = t[c as int].parent->0;
    lemma_parent_facts(t, c);
    lemma_tiles(t, p);
    lemma_tiles_in(t, t[p as int].children);
    let all = tiles(t, p);
    assert(all.contains(c));
    lemma_position(all, c);
    let place = position(all, c);
    let ids = neighbors_of(t, c, p, leading);
    assert forall|k: int| 0 <= k < ids.len() implies valid(t, #[trigger] ids[k]) && t[ids[k]
        as int].parent == Some(p) by {
        let j = if leading {
            k
        } else {
            k + place + 1
        };
        assert(ids[k] == tiles(t, p)[j]);
    }
}

/// An edge that was moved beyond its limit is at the limit: moving it so once more changes nothing.
#[verifier::spinoff_prover]
pub proof fn far_moves_stop_at_the_limit(
    t: Tree,
    id: usize,
    horizontal: bool,
    leading: bool,
    delta: int,
)
    requires
        wf(t),
        valid(t, id),
        is_tile(t, id),
        divider(t, id, horizontal, leading) matches Some(c) ==> sound_at_divider(t, c, leading),
        limits_of(t, id, horizontal, leading) matches Ok(limits) && (delta * WHOLE < limits.0
            || delta * WHOLE > limits.1),
    ensures
        edge_resized(t, id, horizontal, leading, delta) matches Ok(Some((u, p))) ==> edge_resized(
            u,
            id,
            horizontal,
            leading,
            delta,
        ) == Ok::<Option<(Tree, usize)>, WmError>(None),
{
    lemma_edge_share(t, id, horizontal, leading, delta);
    lemma_edge_row(t, id, horizontal, leading, delta);
    lemma_sound_after(t, id, horizontal, leading, delta);
    lemma_tile_at_floor(t, id, horizontal, leading, delta);
    if let Ok(Some((u, p))) = edge_resized(t, id, horizontal, leading, delta) {
        let c = divider(t, id, horizontal, leading)->0;
        lemma_bounds(t, c, horizontal, leading);
        let available = available_of(t, c, horizontal)->Ok_0;
        let neighbors = neighbors_of(t, c, p, leading);
        assert(neighbors_of(u, c, p, leading) == neighbors);
        let capacity = total(capacities_of(t, neighbors, horizontal, available));
        let minimum = floor_share(t, c, horizontal, available);
        let size = share_of(t, c) as int;
        let pixels = outward(delta, leading);
        let asked = edge_change(delta, leading, available);
        lemma_limits_arith(size, minimum, capacity, available, delta);
        lemma_floor_between(pixels, available, 0);
        if pixels > capacity * available {
            lemma_neighbors_at_floor(t, id, horizontal, leading, delta);
        }
        let change = resize_change(
            share_of(u, c) as int,
            share_of(u, c) + asked,
            floor_share(u, c, horizontal, available),
            total(capacities_of(u, neighbors, horizontal, available)),
        );
        assert(change == 0);
    }
}

/// The pixels of a share that grows by what some pixels come to: that many more, or one less.
proof fn lemma_pixels_added(share: int, delta: int, available: int)
    requires
        0 < available <= WHOLE,
        available <= i32::MAX,
        0 <= share <= WHOLE,
        0 <= share + (delta * WHOLE) / available <= WHOLE,
    ensures
        ({
            let more = share_pixels(share + (delta * WHOLE) / available, available)
                - share_pixels(share, available);
            delta - 1 <= more <= delta
        }),
{
    let whole = WHOLE as int;
    let pixels = delta * whole;
    let q = pixels / available;
    vstd::arithmetic::div_mod::lemma_fundamental_div_mod(pixels, available);
    vstd::arithmetic::div_mod::lemma_mod_bound(pixels, available);
    let r = pixels % available;
    let a = share * available;
    let b = (share + q) * available;
    assert(b == a + pixels - r) by (nonlinear_arith)
        requires
            pixels == available * q + r,
            a == share * available,
            b == (share + q) * available,
    ;
    assert(0 <= a <= whole * available && 0 <= b <= whole * available) by (nonlinear_arith)
        requires
            0 <= share <= whole,
            0 <= share + q <= whole,
            0 < available,
            a == share * available,
            b == (share + q) * available,
    ;
    let low = (a + PIXEL_TOLERANCE) / whole;
    let high = (b + PIXEL_TOLERANCE) / whole;
    assert(delta - 1 <= high - low <= delta && 0 <= low <= available && 0 <= high <= available)
        by (nonlinear_arith)
        requires
            low == (a + PIXEL_TOLERANCE) / whole,
            high == (b + PIXEL_TOLERANCE) / whole,
            b == a + delta * whole - r,
            0 <= r < available,
            available <= whole,
            0 <= a <= whole * available,
            0 <= b <= whole * available,
            whole == 1073741824,
            PIXEL_TOLERANCE == 65536,
    ;
}

/// The right or lower edge of a tile at a divider moves by the pixels asked for, or one less.
proof fn lemma_trailing_pixels(t: Tree, id: usize, horizontal: bool, delta: int)
    requires
        wf(t),
        valid(t, id),
        is_tile(t, id),
        divider(t, id, horizontal, false) matches Some(c) ==> {
            &&& sound_at_divider(t, c, false)
            &&& available_of(t, c, horizontal) matches Ok(available) && 0 < available <= WHOLE
        },
        limits_of(t, id, horizontal, false) matches Ok(limits) && limits.0 <= delta * WHOLE
            <= limits.1,
    ensures
        edge_resized(t, id, horizontal, false, delta) matches Ok(Some((u, p))) ==> {
            let c = divider(t, id, horizontal, false)->0;
            let length = length_along(rect_of(t, p)->0, horizontal);
            let more = tile_length(u, c, length, horizontal) - tile_length(
                t,
                c,
                length,
                horizontal,
            );
            delta - 1 <= more <= delta
        },
{
    lemma_edge_share(t, id, horizontal, false, delta);
    lemma_edge_row(t, id, horizontal, false, delta);
    lemma_sound_after(t, id, horizontal, false, delta);
    limits_are_where_the_layout_stops(t, id, horizontal, false, delta);
    if let Ok(Some((u, p))) = edge_resized(t, id, horizontal, false, delta) {
        let c = divider(t, id, horizontal, false)->0;
        lemma_bounds(t, c, horizontal, false);
        let available = available_of(t, c, horizontal)->Ok_0;
        assert(u[c as int].data.inner_gaps == t[c as int].data.inner_gaps);
        assert(tile_siblings(u, c) == tile_siblings(t, c));
        lemma_pixels_added(share_of(t, c) as int, delta, available);
    }
}

/// The shares before a divider whose tile is moved at its near side stay within a whole.
proof fn lemma_leading_shares(t: Tree, id: usize, horizontal: bool, delta: int)
    requires
        wf(t),
        valid(t, id),
        is_tile(t, id),
        divider(t, id, horizontal, true) matches Some(c) ==> sound_at_divider(t, c, true),
    ensures
        edge_resized(t, id, horizontal, true, delta) matches Ok(Some((u, p))) ==> {
            let c = divider(t, id, horizontal, true)->0;
            let neighbors = neighbors_of(t, c, p, true);
            &&& neighbors.len() > 0
            &&& forall|j: int|
                0 <= j < neighbors.len() ==> 0 <= share_of(t, #[trigger] neighbors[j]) <= WHOLE
            &&& forall|j: int|
                0 <= j < neighbors.len() ==> 0 <= share_of(u, #[trigger] neighbors[j]) <= WHOLE
        },
{
    lemma_edge_share(t, id, horizontal, true, delta);
    moved_edge_keeps_the_opposite_side(t, id, horizontal, true, delta);
    if let Ok(Some((u, p))) = edge_resized(t, id, horizontal, true, delta) {
        let c = divider(t, id, horizontal, true)->0;
        lemma_bounds(t, c, horizontal, true);
        lemma_divider(t, id, horizontal, true, t.len());
        let neighbors = neighbors_of(t, c, p, true);
        let rest = available_of(t, c, horizontal)->Ok_0;
        lemma_share_a_whole(t, c, neighbors);
        assert(share_a_whole(u, c, neighbors)) by {
            assert forall|j: int| 0 <= j < neighbors.len() implies 0 <= share_of(
                u,
                #[trigger] neighbors[j],
            ) by {
                assert(0 <= share_of(t, neighbors[j]));
                assert(0 <= floor_share(t, neighbors[j], horizontal, rest));
            }
        }
        lemma_share_a_whole(u, c, neighbors);
    }
}

/// The shares before a divider give what its tile takes.
proof fn lemma_leading_total(t: Tree, id: usize, horizontal: bool, delta: int)
    requires
        wf(t),
        valid(t, id),
        is_tile(t, id),
        divider(t, id, horizontal, true) matches Some(c) ==> sound_at_divider(t, c, true),
        limits_of(t, id, horizontal, true) matches Ok(limits) && limits.0 <= delta * WHOLE
            <= limits.1,
    ensures
        edge_resized(t, id, horizontal, true, delta) matches Ok(Some((u, p))) ==> {
            let c = divider(t, id, horizontal, true)->0;
            let neighbors = neighbors_of(t, c, p, true);
            total(shares_of(u, neighbors)) == total(shares_of(t, neighbors)) - edge_change(
                delta,
                true,
                available_of(t, c, horizontal)->Ok_0,
            )
        },
{
    limits_are_where_the_layout_stops(t, id, horizontal, true, delta);
    moved_edge_keeps_the_opposite_side(t, id, horizontal, true, delta);
}

/// The tiles beside a divider have the same room, before and after.
#[verifier::spinoff_prover]
proof fn lemma_leading_rooms(t: Tree, id: usize, horizontal: bool, delta: int, gap: int)
    requires
        wf(t),
        valid(t, id),
        is_tile(t, id),
        divider(t, id, horizontal, true) matches Some(c) ==> {
            let ids = tiles(t, t[c as int].parent->0);
            &&& available_of(t, c, horizontal) is Ok
            &&& forall|j: int|
                0 <= j < ids.len() ==> gap_along(t, #[trigger] ids[j], horizontal) == gap
        },
    ensures
        edge_resized(t, id, horizontal, true, delta) matches Ok(Some((u, p))) ==> {
            let c = divider(t, id, horizontal, true)->0;
            let ids = tiles(t, p);
            let k = position(ids, c);
            let length = length_along(rect_of(t, p)->0, horizontal);
            let rest = available_of(t, c, horizontal)->Ok_0;
            &&& t[c as int].parent == Some(p)
            &&& 0 <= k < ids.len()
            &&& neighbors_of(t, c, p, true) == ids.take(k)
            &&& forall|j: int|
                0 <= j < ids.len() ==> {
                    &&& available(t, #[trigger] ids[j], length, horizontal) == rest
                    &&& gap_along(t, ids[j], horizontal) == gap
                }
            &&& forall|j: int|
                0 <= j < ids.len() ==> {
                    &&& available(u, #[trigger] ids[j], length, horizontal) == rest
                    &&& gap_along(u, ids[j], horizontal) == gap
                }
        },
{
    lemma_edge_row(t, id, horizontal, true, delta);
    if let Ok(Some((u, p))) = edge_resized(t, id, horizontal, true, delta) {
        let c = divider(t, id, horizontal, true)->0;
        lemma_divider(t, id, horizontal, true, t.len());
        lemma_parent_facts(t, c);
        lemma_tiles(t, p);
        lemma_tiles_in(t, t[p as int].children);
        let ids = tiles(t, p);
        assert(ids.contains(c));
        lemma_position(ids, c);
        let k = position(ids, c);
        assert(neighbors_of(t, c, p, true) =~= ids.take(k));
        let length = length_along(rect_of(t, p)->0, horizontal);
        let rest = available_of(t, c, horizontal)->Ok_0;
        lemma_same_room(t, u, p, c, length, horizontal, gap);
        assert(available(t, c, length, horizontal) == rest);
        assert forall|j: int| 0 <= j < ids.len() implies {
            &&& available(u, #[trigger] ids[j], length, horizontal) == rest
            &&& gap_along(u, ids[j], horizontal) == gap
        } by {
            assert(available(t, tiles(t, p)[j], length, horizontal) == rest);
        }
    }
}

/// The left or upper edge of a tile at a divider moves by the pixels asked for, up to one for each
/// tile before it.
proof fn lemma_leading_pixels(t: Tree, id: usize, horizontal: bool, delta: int, gap: int)
    requires
        wf(t),
        valid(t, id),
        is_tile(t, id),
        divider(t, id, horizontal, true) matches Some(c) ==> {
            let ids = tiles(t, t[c as int].parent->0);
            &&& sound_at_divider(t, c, true)
            &&& available_of(t, c, horizontal) matches Ok(available) && 0 < available <= WHOLE
            &&& forall|j: int|
                0 <= j < ids.len() ==> gap_along(t, #[trigger] ids[j], horizontal) == gap
        },
        limits_of(t, id, horizontal, true) matches Ok(limits) && limits.0 <= delta * WHOLE
            <= limits.1,
    ensures
        edge_resized(t, id, horizontal, true, delta) matches Ok(Some((u, p))) ==> {
            let c = divider(t, id, horizontal, true)->0;
            let ids = tiles(t, p);
            let k = position(ids, c);
            let length = length_along(rect_of(t, p)->0, horizontal);
            let moved = tile_start(u, ids, k, length, horizontal) - tile_start(
                t,
                ids,
                k,
                length,
                horizontal,
            );
            delta - k <= moved <= delta + k
        },
{
    lemma_leading_shares(t, id, horizontal, delta);
    lemma_leading_total(t, id, horizontal, delta);
    lemma_leading_rooms(t, id, horizontal, delta, gap);
    lemma_edge_row(t, id, horizontal, true, delta);
    if let Ok(Some((u, p))) = edge_resized(t, id, horizontal, true, delta) {
        let c = divider(t, id, horizontal, true)->0;
        let ids = tiles(t, p);
        let k = position(ids, c);
        let neighbors = neighbors_of(t, c, p, true);
        let length = length_along(rect_of(t, p)->0, horizontal);
        let rest = available_of(t, c, horizontal)->Ok_0;
        lemma_start_between(t, ids, k, length, horizontal, gap, rest);
        lemma_start_between(u, ids, k, length, horizontal, gap, rest);
        lemma_start_moves(
            tile_start(t, ids, k, length, horizontal) - k * gap,
            tile_start(u, ids, k, length, horizontal) - k * gap,
            total(shares_of(t, neighbors)),
            total(shares_of(u, neighbors)),
            rest,
            k,
            delta,
        );
    }
}

/// Where a tile starts, up to less than one pixel for each tile before it.
proof fn lemma_start_between(
    t: Tree,
    ids: Seq<usize>,
    k: int,
    length: int,
    horizontal: bool,
    gap: int,
    rest: int,
)
    requires
        0 < k < ids.len(),
        0 <= rest <= i32::MAX,
        forall|j: int|
            0 <= j < ids.len() ==> {
                &&& available(t, #[trigger] ids[j], length, horizontal) == rest
                &&& gap_along(t, ids[j], horizontal) == gap
            },
        forall|j: int|
            0 <= j < ids.take(k).len() ==> 0 <= share_of(t, #[trigger] ids.take(k)[j]) <= WHOLE,
    ensures
        ({
            let start = tile_start(t, ids, k, length, horizontal) - k * gap;
            let shared = rest * total(shares_of(t, ids.take(k)));
            &&& start * WHOLE <= shared + k * PIXEL_TOLERANCE
            &&& start * WHOLE > shared - k * (WHOLE - PIXEL_TOLERANCE)
        }),
{
    assert forall|j: int| 0 <= j <= k - 1 implies {
        &&& available(t, #[trigger] ids[j], length, horizontal) == rest
        &&& gap_along(t, ids[j], horizontal) == gap
        &&& 0 <= share_of(t, ids[j]) <= WHOLE
    } by {
        assert(ids.take(k)[j] == ids[j]);
        assert(0 <= share_of(t, ids.take(k)[j]) <= WHOLE);
    }
    lemma_end_between(t, ids, k - 1, length, horizontal, gap, rest);
    assert(ids.take(k - 1 + 1) =~= ids.take(k));
    assert(gap_along(t, ids[k], horizontal) == gap);
    lemma_one_gap(k, gap);
}

proof fn lemma_one_gap(k: int, gap: int)
    ensures
        k * gap == (k - 1) * gap + gap,
{
    assert(k * gap == (k - 1) * gap + gap) by (nonlinear_arith);
}

/// The tiles of a row have the same room between them, also after shares of the row changed.
proof fn lemma_same_room(
    t: Tree,
    u: Tree,
    p: usize,
    c: usize,
    length: int,
    horizontal: bool,
    gap: int,
)
    requires
        wf(t),
        valid(t, p),
        differ_in_row(t, u, p),
        tiles(t, p).contains(c),
        forall|j: int|
            0 <= j < tiles(t, p).len() ==> gap_along(t, #[trigger] tiles(t, p)[j], horizontal)
                == gap,
    ensures
        forall|j: int|
            0 <= j < tiles(t, p).len() ==> {
                &&& available(t, #[trigger] tiles(t, p)[j], length, horizontal) == available(
                    t,
                    c,
                    length,
                    horizontal,
                )
                &&& available(u, tiles(t, p)[j], length, horizontal) == available(
                    t,
                    c,
                    length,
                    horizontal,
                )
                &&& gap_along(u, tiles(t, p)[j], horizontal) == gap
            },
{
    let ids = tiles(t, p);
    lemma_tiles(t, p);
    lemma_row_tiles(t, u, p, p);
    let i = choose|i: int| 0 <= i < ids.len() && ids[i] == c;
    assert(gap_along(t, tiles(t, p)[i], horizontal) == gap);
    assert(t[tiles(t, p)[i] as int].parent == Some(p));
    lemma_without(ids, c);
    assert forall|j: int| 0 <= j < ids.len() implies {
        &&& available(t, #[trigger] tiles(t, p)[j], length, horizontal) == available(
            t,
            c,
            length,
            horizontal,
        )
        &&& available(u, tiles(t, p)[j], length, horizontal) == available(t, c, length, horizontal)
        &&& gap_along(u, tiles(t, p)[j], horizontal) == gap
    } by {
        let x = ids[j];
        assert(gap_along(t, tiles(t, p)[j], horizontal) == gap);
        assert(t[tiles(t, p)[j] as int].parent == Some(p));
        assert(u[x as int].parent == t[x as int].parent);
        assert(u[x as int].data.inner_gaps == t[x as int].data.inner_gaps);
        assert(ids.contains(ids[j]));
        lemma_without(ids, x);
    }
}

/// How far a tile starts elsewhere when the tiles before it give up what some pixels come to.
proof fn lemma_start_moves(
    before: int,
    after: int,
    shares: int,
    shares_after: int,
    rest: int,
    k: int,
    delta: int,
)
    requires
        0 < rest <= WHOLE,
        k > 0,
        shares_after == shares - ((-delta) * WHOLE) / rest,
        before * WHOLE <= rest * shares + k * PIXEL_TOLERANCE,
        before * WHOLE > rest * shares - k * (WHOLE - PIXEL_TOLERANCE),
        after * WHOLE <= rest * shares_after + k * PIXEL_TOLERANCE,
        after * WHOLE > rest * shares_after - k * (WHOLE - PIXEL_TOLERANCE),
    ensures
        delta - k <= after - before <= delta + k,
{
    let whole = WHOLE as int;
    let pixels = (-delta) * whole;
    let q = pixels / rest;
    vstd::arithmetic::div_mod::lemma_fundamental_div_mod(pixels, rest);
    vstd::arithmetic::div_mod::lemma_mod_bound(pixels, rest);
    let r = pixels % rest;
    assert(rest * shares_after == rest * shares + delta * whole + r) by (nonlinear_arith)
        requires
            pixels == rest * q + r,
            pixels == (-delta) * whole,
            shares_after == shares - q,
    ;
    let d = after - before;
    assert(k * (whole - PIXEL_TOLERANCE) + k * PIXEL_TOLERANCE == k * whole) by (nonlinear_arith);
    assert(d * whole < delta * whole + r + k * whole && d * whole > delta * whole + r - k * whole)
        by (nonlinear_arith)
        requires
            d == after - before,
            before * whole <= rest * shares + k * PIXEL_TOLERANCE,
            before * whole > rest * shares - k * (whole - PIXEL_TOLERANCE),
            after * whole <= rest * shares_after + k * PIXEL_TOLERANCE,
            after * whole > rest * shares_after - k * (whole - PIXEL_TOLERANCE),
            rest * shares_after == rest * shares + delta * whole + r,
            k * (whole - PIXEL_TOLERANCE) + k * PIXEL_TOLERANCE == k * whole,
    ;
    assert(delta - k <= d && d <= delta + k) by (nonlinear_arith)
        requires
            d * whole < delta * whole + r + k * whole,
            d * whole > delta * whole + r - k * whole,
            0 <= r < rest,
            rest <= whole,
            whole == 1073741824,
    ;
}

/// Within its limits an edge moves by as many pixels as asked for. A right or lower edge moves to
/// the pixel or one short of it, while its tile starts where it did. A left or upper edge moves to
/// the pixel up to one for each tile before it, as these are rounded each on its own.
#[verifier::spinoff_prover]
pub proof fn edges_move_by_pixels(
    t: Tree,
    id: usize,
    horizontal: bool,
    leading: bool,
    delta: int,
    gap: int,
)
    requires
        wf(t),
        valid(t, id),
        is_tile(t, id),
        divider(t, id, horizontal, leading) matches Some(c) ==> {
            let ids = tiles(t, t[c as int].parent->0);
            &&& sound_at_divider(t, c, leading)
            &&& available_of(t, c, horizontal) matches Ok(available) && 0 < available <= WHOLE
            &&& forall|j: int|
                0 <= j < ids.len() ==> gap_along(t, #[trigger] ids[j], horizontal) == gap
        },
        limits_of(t, id, horizontal, leading) matches Ok(limits) && limits.0 <= delta * WHOLE
            <= limits.1,
    ensures
        divider(t, id, horizontal, leading) is None ==> delta == 0,
        edge_resized(t, id, horizontal, leading, delta) matches Ok(Some((u, p))) ==> {
            let c = divider(t, id, horizontal, leading)->0;
            let ids = tiles(t, p);
            let k = position(ids, c);
            let length = length_along(rect_of(t, p)->0, horizontal);
            let start = tile_start(t, ids, k, length, horizontal);
            let start_after = tile_start(u, ids, k, length, horizontal);
            let end = start + tile_length(t, c, length, horizontal);
            let end_after = start_after + tile_length(u, c, length, horizontal);
            &&& rect_of(u, p) == rect_of(t, p)
            &&& tiles(u, p) == ids
            &&& leading ==> delta - k <= start_after - start <= delta + k
            &&& !leading ==> start_after == start && delta - 1 <= end_after - end <= delta
        },
{
    lemma_edge_row(t, id, horizontal, leading, delta);
    if divider(t, id, horizontal, leading) is None {
        assert(delta == 0) by (nonlinear_arith)
            requires
                0 <= delta * WHOLE <= 0,
                WHOLE == 1073741824,
        ;
    }
    if leading {
        lemma_leading_pixels(t, id, horizontal, delta, gap);
    } else {
        lemma_trailing_pixels(t, id, horizontal, delta);
        if let Ok(Some((u, p))) = edge_resized(t, id, horizontal, leading, delta) {
            let c = divider(t, id, horizontal, leading)->0;
            lemma_divider(t, id, horizontal, leading, t.len());
            lemma_parent_facts(t, c);
            lemma_tiles_in(t, t[p as int].children);
            lemma_position(tiles(t, p), c);
            let length = length_along(rect_of(t, p)->0, horizontal);
            trailing_move_keeps_start(
                t,
                id,
                horizontal,
                delta,
                position(tiles(t, p), c),
                length,
            );
        }
    }
}

} // verus!
