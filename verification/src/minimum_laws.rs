//! What resizing with minimum lengths keeps.

use vstd::prelude::*;

use crate::errors::WmError;
use crate::geometry::{int_max, int_min, TilingDirection};
use crate::lists::{lemma_distinct_bounded, lemma_push_unique};
use crate::placement::{available, available_of, gap_along, share_pixels, tile_length};
use crate::shares::{
    lemma_total_difference, lemma_total_equal_weights, lemma_total_nonnegative, part,
    part_is_proportional, part_within_weight, parts_add_up, taken, total, EPSILON, MIN_TILING_SIZE,
    WHOLE,
};
use crate::tiling_minimums::{
    capacities_of, ceil_div, change_weights, floor_share, length_saturated, minimum_fuel,
    minimum_of, needed_by_all, needed_for, resize_change, resized_against, resized_with_minimums,
    same_axis, share_for, LENGTH_LIMIT, SUBPIXELS,
};
use crate::tree::{
    is_tile, kind, ranked, share_of, shares_of, tile_siblings, tiles, valid, wf, with_shares,
    ContainerKind, Tree,
};
use crate::tree_laws::{lemma_parent_facts, lemma_tile_siblings, lemma_tiles, lemma_with_shares};

verus! {

/// A share at or above that of a minimum length comes to at least that length in
/// pixels.
pub proof fn share_for_minimum_is_enough(minimum: int, share: int, available: int)
    requires
        0 <= minimum,
        minimum <= i32::MAX * SUBPIXELS,
        0 < available,
        share_for(minimum, available) <= share,
    ensures
        minimum <= share_pixels(share, available) * SUBPIXELS,
{
    let a = (minimum + SUBPIXELS) * WHOLE;
    let b = available * SUBPIXELS;
    assert(b > 0) by (nonlinear_arith)
        requires
            available > 0,
            b == available * SUBPIXELS,
            SUBPIXELS == 65536,
    ;
    lemma_ceil_div(a, b);
    let q = (share * available) / (WHOLE as int);
    assert(share * b >= a) by (nonlinear_arith)
        requires
            ceil_div(a, b) * b >= a,
            ceil_div(a, b) <= share,
            b > 0,
    ;
    assert(share * b == (share * available) * SUBPIXELS) by (nonlinear_arith)
        requires
            b == available * SUBPIXELS,
    ;
    lemma_pixels(share * available, minimum);
    assert(share * available >= 0);
}

proof fn lemma_ceil_div(a: int, b: int)
    requires
        b > 0,
    ensures
        ceil_div(a, b) * b >= a,
{
    let q = (a + b - 1) / b;
    vstd::arithmetic::div_mod::lemma_fundamental_div_mod(a + b - 1, b);
    vstd::arithmetic::div_mod::lemma_mod_bound(a + b - 1, b);
    assert(q * b >= a) by (nonlinear_arith)
        requires
            a + b - 1 == b * q + (a + b - 1) % b,
            0 <= (a + b - 1) % b < b,
    ;
}

proof fn lemma_pixels(product: int, minimum: int)
    requires
        0 <= minimum,
        product * SUBPIXELS >= (minimum + SUBPIXELS) * WHOLE,
    ensures
        product >= 0,
        (product / (WHOLE as int)) * SUBPIXELS >= minimum,
{
    let q = product / (WHOLE as int);
    assert(q * SUBPIXELS >= minimum) by (nonlinear_arith)
        requires
            product * SUBPIXELS >= (minimum + SUBPIXELS) * WHOLE,
            q == product / (WHOLE as int),
            SUBPIXELS == 65536,
            WHOLE == 1073741824,
    ;
    assert(product >= 0) by (nonlinear_arith)
        requires
            product * SUBPIXELS >= (minimum + SUBPIXELS) * WHOLE,
            minimum >= 0,
            SUBPIXELS == 65536,
            WHOLE == 1073741824,
    ;
}

/// Whether a tile and some of its siblings share no more than a whole, none of them
/// with a negative share.
pub open spec fn share_a_whole(t: Tree, id: usize, neighbors: Seq<usize>) -> bool {
    &&& 0 <= share_of(t, id)
    &&& forall|k: int| 0 <= k < neighbors.len() ==> 0 <= share_of(t, #[trigger] neighbors[k])
    &&& share_of(t, id) + total(shares_of(t, neighbors)) <= WHOLE
}

proof fn lemma_taken(shares: Seq<i64>, change: int, weights: Seq<i64>)
    requires
        shares.len() == weights.len(),
        shares.len() > 0,
        total(weights) > 0,
        forall|k: int| 0 <= k < shares.len() ==> 0 <= #[trigger] shares[k] <= WHOLE,
        forall|k: int| 0 <= k < weights.len() ==> 0 <= #[trigger] weights[k],
        -WHOLE <= change <= WHOLE,
        change > 0 ==> change <= total(weights),
    ensures
        total(taken(shares, change, weights)) == total(shares) - change,
        change > 0 ==> forall|k: int|
            0 <= k < shares.len() ==> #[trigger] taken(shares, change, weights)[k] >= shares[k]
                - weights[k],
        change <= 0 ==> forall|k: int|
            0 <= k < shares.len() ==> #[trigger] taken(shares, change, weights)[k] >= shares[k],
{
    let n = shares.len();
    let w = total(weights);
    let after = taken(shares, change, weights);
    let parts = Seq::new(n, |i: int| part(change, weights, i) as i64);
    lemma_total_nonnegative(weights);
    assert forall|i: int| 0 <= i < n implies #[trigger] parts[i] == part(change, weights, i)
        && after[i] == shares[i] - parts[i] && (change > 0 ==> parts[i] <= weights[i]) && (change
        <= 0 ==> parts[i] <= 0) by {
        let p = part(change, weights, i);
        part_is_proportional(change, weights, i);
        let k = weights[i] as int;
        if change > 0 {
            part_within_weight(change, weights, i);
        }
        assert(-WHOLE - 1 <= p && p <= WHOLE + 1) by (nonlinear_arith)
            requires
                (p - 1) * w < change * k,
                change * k < (p + 1) * w,
                -WHOLE <= change <= WHOLE,
                0 <= k <= w,
                w > 0,
                WHOLE == 1073741824,
        ;
        if change <= 0 {
            assert(p <= 0) by (nonlinear_arith)
                requires
                    (p - 1) * w < change * k,
                    change <= 0,
                    0 <= k,
                    w > 0,
            ;
        }
    }
    parts_add_up(change, weights, parts);
    lemma_total_difference(shares, parts, after);
    assert forall|k: int| change > 0 && 0 <= k < n implies #[trigger] after[k] >= shares[k]
        - weights[k] by {
        assert(parts[k] <= weights[k]);
    }
    assert forall|k: int| change <= 0 && 0 <= k < n implies #[trigger] after[k] >= shares[k] by {
        assert(parts[k] <= 0);
    }
}

/// When a tile is resized against some of its siblings, what it gains they lose, and
/// no tile falls below the share of its minimum length, or further below it than it
/// already was.
pub proof fn resizing_keeps_total_and_minimums(
    t: Tree,
    id: usize,
    neighbors: Seq<usize>,
    target: int,
    horizontal: bool,
    available: int,
)
    requires
        wf(t),
        valid(t, id),
        forall|k: int| 0 <= k < neighbors.len() ==> valid(t, #[trigger] neighbors[k]),
        neighbors.no_duplicates(),
        neighbors.len() > 0,
        !neighbors.contains(id),
        share_a_whole(t, id, neighbors),
    ensures
        resized_against(
            t,
            id,
            neighbors,
            target,
            floor_share(t, id, horizontal, available),
            capacities_of(t, neighbors, horizontal, available),
        ) matches Some(u) ==> {
            &&& share_of(u, id) + total(shares_of(u, neighbors)) == share_of(t, id) + total(
                shares_of(t, neighbors),
            )
            &&& share_of(u, id) >= floor_share(t, id, horizontal, available)
            &&& forall|k: int|
                0 <= k < neighbors.len() ==> share_of(u, #[trigger] neighbors[k]) >= floor_share(
                    t,
                    neighbors[k],
                    horizontal,
                    available,
                )
        },
{
    let minimum = floor_share(t, id, horizontal, available);
    let capacities = capacities_of(t, neighbors, horizontal, available);
    if let Some(u) = resized_against(t, id, neighbors, target, minimum, capacities) {
        let n = neighbors.len();
        let size = share_of(t, id) as int;
        let shares = shares_of(t, neighbors);
        let change = resize_change(size, target, minimum, total(capacities));
        let weights = change_weights(change, shares, capacities);
        assert forall|k: int| 0 <= k < n implies 0 <= #[trigger] shares[k] by {
            assert(0 <= share_of(t, neighbors[k]));
        }
        lemma_total_nonnegative(shares);
        assert forall|k: int| 0 <= k < n implies 0 <= #[trigger] capacities[k] <= shares[k]
            && capacities[k] == shares[k] - floor_share(t, neighbors[k], horizontal, available) by {
            assert(0 <= share_of(t, neighbors[k]));
            assert(shares[k] <= total(shares));
        }
        lemma_total_nonnegative(capacities);
        lemma_total_below(capacities, shares);
        lemma_total_equal_weights(n);
        lemma_taken(shares, change, weights);
        let after = taken(shares, change, weights);
        lemma_with_shares(t, neighbors, after);
        let v = with_shares(t, neighbors, after);
        assert forall|k: int| 0 <= k < n implies share_of(u, #[trigger] neighbors[k])
            == after[k] by {
            assert(neighbors[k] != id) by {
                assert(neighbors.contains(neighbors[k]));
            }
            assert(share_of(v, neighbors[k]) == after[k]);
        }
        assert(shares_of(u, neighbors) =~= after);
        assert forall|k: int| 0 <= k < n implies share_of(u, #[trigger] neighbors[k])
            >= floor_share(t, neighbors[k], horizontal, available) by {
            assert(share_of(u, neighbors[k]) == after[k]);
            assert(capacities[k] == shares[k] - floor_share(
                t,
                neighbors[k],
                horizontal,
                available,
            ));
            assert(after[k] >= shares[k] - capacities[k]);
        }
    }
}

/// Resizing a tile against its siblings with regard to minimum lengths. What the tile gains its
/// siblings lose, no share falls below its floor, and no other container changes. The tile gets the
/// share asked for where the floors allow it, and else the share where they stop it. Nothing
/// changes where there is nothing to resize against, or where the change would be next to nothing.
pub proof fn resizing_respects_minimums(t: Tree, id: usize, target: i64)
    requires
        wf(t),
        valid(t, id),
        is_tile(t, id),
        t[id as int].parent is Some,
        share_a_whole(t, id, tile_siblings(t, id)),
    ensures
        ({
            let p = t[id as int].parent->0;
            let horizontal = t[p as int].data.tiling_direction == TilingDirection::Horizontal;
            let siblings = tile_siblings(t, id);
            let available = available_of(t, id, horizontal)->Ok_0;
            let size = share_of(t, id) as int;
            let floor = floor_share(t, id, horizontal, available);
            let most = size + total(capacities_of(t, siblings, horizontal, available));
            let reached = int_max(floor, int_min(target as int, most));
            match resized_with_minimums(t, id, Some(target)) {
                Err(error) => available_of(t, id, horizontal) == Err::<int, WmError>(error),
                Ok(None) => {
                    ||| siblings.len() == 0
                    ||| available <= 0
                    ||| -EPSILON < reached - size < EPSILON
                },
                Ok(Some(u)) => {
                    &&& siblings.len() > 0 && available > 0
                    &&& u.len() == t.len()
                    &&& share_of(u, id) == reached
                    &&& floor <= target <= most ==> share_of(u, id) == target
                    &&& share_of(u, id) + total(shares_of(u, siblings)) == size + total(
                        shares_of(t, siblings),
                    )
                    &&& share_of(u, id) >= floor
                    &&& forall|k: int|
                        0 <= k < siblings.len() ==> share_of(u, #[trigger] siblings[k])
                            >= floor_share(t, siblings[k], horizontal, available)
                    &&& forall|i: int|
                        0 <= i < t.len() && i != id && !siblings.contains(i as usize)
                            ==> #[trigger] u[i] == t[i]
                },
            }
        }),
        resized_with_minimums(t, id, None) matches Ok(u) ==> u is None,
{
    let p = t[id as int].parent->0;
    let horizontal = t[p as int].data.tiling_direction == TilingDirection::Horizontal;
    let siblings = tile_siblings(t, id);
    lemma_parent_facts(t, id);
    lemma_tile_siblings(t, id);
    if let Ok(available) = available_of(t, id, horizontal) {
        if siblings.len() > 0 && available > 0 {
            let minimum = floor_share(t, id, horizontal, available);
            let capacities = capacities_of(t, siblings, horizontal, available);
            let shares = shares_of(t, siblings);
            let size = share_of(t, id) as int;
            assert forall|k: int| 0 <= k < shares.len() implies 0 <= #[trigger] shares[k] by {
                assert(0 <= share_of(t, siblings[k]));
            }
            lemma_total_nonnegative(shares);
            assert forall|k: int| 0 <= k < capacities.len() implies 0 <= #[trigger] capacities[k]
                && capacities[k] <= shares[k] by {
                assert(0 <= share_of(t, siblings[k]));
                assert(shares[k] <= total(shares));
            }
            lemma_total_nonnegative(capacities);
            lemma_total_below(capacities, shares);
            resizing_keeps_total_and_minimums(
                t,
                id,
                siblings,
                target as int,
                horizontal,
                available,
            );
            let change = resize_change(size, target as int, minimum, total(capacities));
            let after = taken(shares, change, change_weights(change, shares, capacities));
            lemma_with_shares(t, siblings, after);
            let v = with_shares(t, siblings, after);
            assert(v[id as int] == t[id as int]);
        }
    }
}

pub proof fn lemma_total_below(a: Seq<i64>, b: Seq<i64>)
    requires
        a.len() == b.len(),
        forall|k: int| 0 <= k < a.len() ==> #[trigger] a[k] <= b[k],
    ensures
        total(a) <= total(b),
    decreases a.len(),
{
    if a.len() > 0 {
        let c = a.drop_last();
        let d = b.drop_last();
        assert forall|k: int| 0 <= k < c.len() implies #[trigger] c[k] <= d[k] by {
            assert(a[k] <= b[k]);
        }
        lemma_total_below(c, d);
        assert(a[a.len() - 1] <= b[b.len() - 1]);
    }
}

proof fn lemma_needed_same(
    t: Tree,
    ids: Seq<usize>,
    horizontal: bool,
    along: bool,
    f: nat,
    g: nat,
)
    requires
        forall|k: int|
            0 <= k < ids.len() ==> minimum_fuel(t, #[trigger] ids[k], horizontal, f)
                == minimum_fuel(t, ids[k], horizontal, g),
    ensures
        needed_by_all(t, ids, horizontal, along, f) == needed_by_all(
            t,
            ids,
            horizontal,
            along,
            g,
        ),
    decreases ids.len(),
{
    if ids.len() > 0 {
        let front = ids.drop_last();
        assert forall|k: int| 0 <= k < front.len() implies minimum_fuel(
            t,
            #[trigger] front[k],
            horizontal,
            f,
        ) == minimum_fuel(t, front[k], horizontal, g) by {
            assert(front[k] == ids[k]);
        }
        lemma_needed_same(t, front, horizontal, along, f, g);
        assert(minimum_fuel(t, ids[ids.len() - 1], horizontal, f) == minimum_fuel(
            t,
            ids[ids.len() - 1],
            horizontal,
            g,
        ));
    }
}

/// Looking deeper than there are containers makes no difference: the containers on
/// the way down are all distinct.
proof fn lemma_depth_bounded(
    t: Tree,
    rank: Seq<int>,
    path: Seq<usize>,
    id: usize,
    horizontal: bool,
    fuel: nat,
)
    requires
        wf(t),
        ranked(t, rank),
        valid(t, id),
        path.no_duplicates(),
        forall|k: int|
            0 <= k < path.len() ==> valid(t, #[trigger] path[k]) && rank[path[k] as int]
                >= rank[id as int],
        path.len() + fuel >= t.len(),
    ensures
        minimum_fuel(t, id, horizontal, fuel) == minimum_fuel(t, id, horizontal, fuel + 1),
    decreases fuel,
{
    if kind(t, id) == ContainerKind::Split {
        lemma_tiles(t, id);
        let ids = tiles(t, id);
        let along = same_axis(t, id, horizontal);
        assert forall|k: int| 0 <= k < ids.len() implies {
            &&& fuel > 0
            &&& minimum_fuel(t, #[trigger] ids[k], horizontal, (fuel - 1) as nat) == minimum_fuel(
                t,
                ids[k],
                horizontal,
                fuel,
            )
        } by {
            let c = ids[k];
            assert(valid(t, ids[k]));
            assert(t[c as int].parent == Some(id));
            assert(rank[c as int] < rank[id as int]);
            if path.contains(c) {
                let j = choose|j: int| 0 <= j < path.len() && path[j] == c;
                assert(rank[path[j] as int] >= rank[id as int]);
            }
            lemma_push_unique(path, c);
            let longer = path.push(c);
            assert forall|j: int| 0 <= j < longer.len() implies valid(t, #[trigger] longer[j])
                && rank[longer[j] as int] >= rank[c as int] by {
                if j < path.len() {
                    assert(valid(t, path[j]));
                }
            }
            assert forall|j: int| 0 <= j < longer.len() implies (#[trigger] longer[j])
                < t.len() by {
                assert(valid(t, longer[j]));
            }
            lemma_distinct_bounded(longer, t.len() as int);
            lemma_depth_bounded(t, rank, longer, c, horizontal, (fuel - 1) as nat);
        }
        if ids.len() > 0 {
            assert(minimum_fuel(t, ids[0], horizontal, (fuel - 1) as nat) == minimum_fuel(
                t,
                ids[0],
                horizontal,
                fuel,
            ));
            lemma_needed_same(t, ids, horizontal, along, (fuel - 1) as nat, fuel);
        } else {
            assert(needed_by_all(t, ids, horizontal, along, fuel) == 0);
            assert(fuel > 0 ==> needed_by_all(t, ids, horizontal, along, (fuel - 1) as nat) == 0);
            assert(gap_along(t, id, horizontal) * int_max(ids.len() - 1, 0) == 0)
                by (nonlinear_arith)
                requires
                    int_max(ids.len() - 1, 0) == 0,
            ;
        }
    }
}

/// The minimum of a tile inside a split, seen from the split.
proof fn lemma_minimum_inside(t: Tree, id: usize, horizontal: bool)
    requires
        wf(t),
        valid(t, id),
    ensures
        minimum_fuel(t, id, horizontal, (t.len() - 1) as nat) == minimum_of(t, id, horizontal),
{
    let rank = choose|rank: Seq<int>| ranked(t, rank);
    lemma_depth_bounded(t, rank, seq![id], id, horizontal, (t.len() - 1) as nat);
}

proof fn lemma_needed_covers(
    t: Tree,
    ids: Seq<usize>,
    horizontal: bool,
    along: bool,
    fuel: nat,
    k: int,
)
    requires
        0 <= k < ids.len(),
    ensures
        needed_by_all(t, ids, horizontal, along, fuel) >= 0,
        needed_by_all(t, ids, horizontal, along, fuel) >= needed_for(
            minimum_fuel(t, ids[k], horizontal, fuel),
            share_of(t, ids[k]) as int,
            along,
        ),
    decreases ids.len(),
{
    let front = ids.drop_last();
    if k < front.len() {
        assert(front[k] == ids[k]);
        lemma_needed_covers(t, front, horizontal, along, fuel, k);
    } else if front.len() > 0 {
        lemma_needed_covers(t, front, horizontal, along, fuel, 0);
    } else {
        assert(needed_by_all(t, front, horizontal, along, fuel) == 0);
    }
}

/// A split that is at least as long as its minimum gives each of its tiles at least
/// the tile's own minimum, however uneven their shares are.
pub proof fn split_at_minimum_fits_its_tiles(
    t: Tree,
    split: usize,
    k: int,
    length: int,
    horizontal: bool,
)
    requires
        wf(t),
        valid(t, split),
        kind(t, split) == ContainerKind::Split,
        0 <= k < tiles(t, split).len(),
        MIN_TILING_SIZE <= share_of(t, tiles(t, split)[k]) <= WHOLE,
        0 <= minimum_of(t, tiles(t, split)[k], horizontal),
        0 <= gap_along(t, split, horizontal),
        gap_along(t, tiles(t, split)[k], horizontal) == gap_along(t, split, horizontal),
        length <= i32::MAX,
        minimum_of(t, split, horizontal) <= length * SUBPIXELS,
    ensures
        minimum_of(t, tiles(t, split)[k], horizontal) <= (if same_axis(t, split, horizontal) {
            tile_length(t, tiles(t, split)[k], length, horizontal)
        } else {
            length
        }) * SUBPIXELS,
{
    let ids = tiles(t, split);
    let id = ids[k];
    let n = ids.len();
    let along = same_axis(t, split, horizontal);
    let fuel = (t.len() - 1) as nat;
    lemma_tiles(t, split);
    assert(valid(t, ids[k]));
    lemma_minimum_inside(t, id, horizontal);
    lemma_needed_covers(t, ids, horizontal, along, fuel, k);
    let minimum = minimum_of(t, id, horizontal);
    if along {
        let gap = gap_along(t, split, horizontal);
        let needed = needed_by_all(t, ids, horizontal, along, fuel);
        let gaps = gap * int_max(n - 1, 0);
        assert(gaps >= 0 && gaps == gap * (n - 1)) by (nonlinear_arith)
            requires
                gap >= 0,
                n >= 1,
                gaps == gap * int_max(n - 1, 0),
                int_max(n - 1, 0) == n - 1,
        ;
        assert(minimum_of(t, split, horizontal) == length_saturated(needed + gaps * SUBPIXELS));
        assert(length * SUBPIXELS < LENGTH_LIMIT);
        assert(needed + gaps * SUBPIXELS <= length * SUBPIXELS);
        let share = share_of(t, id) as int;
        let a = (minimum + SUBPIXELS) * WHOLE;
        lemma_ceil_div(a, share);
        assert(a >= 0);
        let c = ceil_div(a, share);
        assert(c >= 0) by (nonlinear_arith)
            requires
                c * share >= a,
                a >= 0,
                share > 0,
        ;
        assert(needed_for(minimum, share, true) == length_saturated(c));
        assert(c <= needed);
        let rest = length - gaps;
        assert(crate::tree::tile_siblings(t, id).len() == n - 1) by {
            crate::lists::lemma_without(ids, id);
            assert(ids.contains(id));
        }
        assert(available(t, id, length, horizontal) == rest);
        assert(share * rest * SUBPIXELS >= a) by (nonlinear_arith)
            requires
                c * share >= a,
                c <= rest * SUBPIXELS,
                share > 0,
        ;
        lemma_pixels(share * rest, minimum);
        assert((share * rest) / (WHOLE as int) <= rest) by (nonlinear_arith)
            requires
                0 < share <= WHOLE,
                share * rest >= 0,
                WHOLE == 1073741824,
        ;
    }
}

} // verus!
