//! A window that leaves the column it was stacked in gets the share back that it had in the row.

use vstd::prelude::*;

use crate::frame_laws::moving_changes_shares_only;
use crate::geometry::{Direction, TilingDirection};
use crate::layout::lemma_push_wf;
use crate::lists::{lemma_position, position, shifted};
use crate::pending_sync::PendingSyncView;
use crate::shares::{
    part, part_is_proportional, saturated, share_ok, total, MAX_CONTAINERS, WHOLE,
};
use crate::split_ops::{noted_share, noted_shares, unstack_fraction, unstack_remembered};
use crate::traversal::ancestors;
use crate::tree::{
    as_split_shares, is_tile, kind, moved, ranked, resized, share_of, shares_of, tile_siblings,
    tiles, tiles_in, valid, wf, with_children, with_share, with_shares, wrapped, ContainerKind,
    Gaps, Tree,
};
use crate::tree_laws::{
    are_tiles_of, lemma_moved_within, lemma_parent_facts, lemma_same_links_wf, lemma_tile_siblings,
    lemma_with_shares, lemma_wrapped, moving_keeps_tree, resizing_keeps_links, wrapping_keeps_tree,
};
use crate::whole_laws::{lemma_tiles_are, lemma_wrapped_shares, lemma_wrapped_split};
use crate::window_laws::lemma_window_childless;
use crate::window_move::{
    first_under, lemma_new_split, moved_beside, moved_into_ancestor, row_restored, split_data,
    stack_order, stacked, unstacked_share, with_new_split,
};

verus! {

/// Whether a window and its neighbor stand in a row and can be stacked.
pub open spec fn can_stack(t: Tree, window: usize, neighbor: usize) -> bool {
    &&& valid(t, window)
    &&& valid(t, neighbor)
    &&& window != neighbor
    &&& kind(t, window) == ContainerKind::TilingWindow
    &&& is_tile(t, neighbor)
    &&& t[window as int].parent matches Some(p)
    &&& t[neighbor as int].parent == Some(p)
    &&& t[p as int].data.tiling_direction == TilingDirection::Horizontal
    &&& t.len() < MAX_CONTAINERS && t.len() < usize::MAX
    &&& 0 < share_of(t, window)
    &&& 0 < share_of(t, neighbor)
    &&& share_of(t, window) + share_of(t, neighbor) <= WHOLE
}

pub proof fn lemma_noted(ids: Seq<usize>, shares: Seq<i64>, k: int)
    requires
        ids.len() == shares.len(),
        ids.no_duplicates(),
        0 <= k < ids.len(),
    ensures
        noted_share(noted_shares(ids, shares), ids[k]) == Some(shares[k]),
    decreases ids.len(),
{
    let all = noted_shares(ids, shares);
    let front = ids.drop_last();
    assert(all.drop_last() =~= noted_shares(front, shares.drop_last()));
    if k < front.len() {
        assert(front[k] == ids[k]);
        lemma_noted(front, shares.drop_last(), k);
    } else {
        lemma_not_noted(front, shares.drop_last(), ids[k]);
    }
}

proof fn lemma_not_noted(ids: Seq<usize>, shares: Seq<i64>, id: usize)
    requires
        ids.len() == shares.len(),
        forall|k: int| 0 <= k < ids.len() ==> #[trigger] ids[k] != id,
    ensures
        noted_share(noted_shares(ids, shares), id) is None,
    decreases ids.len(),
{
    if ids.len() > 0 {
        let all = noted_shares(ids, shares);
        let front = ids.drop_last();
        assert(all.drop_last() =~= noted_shares(front, shares.drop_last()));
        assert forall|k: int| 0 <= k < front.len() implies #[trigger] front[k] != id by {
            assert(ids[k] != id);
        }
        lemma_not_noted(front, shares.drop_last(), id);
        assert(ids[ids.len() - 1] != id);
    }
}

/// A share of a split that was worked out from a share of a row comes back, less one unit at most.
pub proof fn lemma_share_returns(shares: Seq<i64>, k: int)
    requires
        shares.len() == 2,
        0 <= k < 2,
        0 < shares[0],
        0 < shares[1],
        shares[0] + shares[1] <= WHOLE,
    ensures
        total(shares) == shares[0] + shares[1],
        0 <= as_split_shares(shares)[k] <= WHOLE + 1,
        shares[k] - 1 <= (total(shares) * as_split_shares(shares)[k]) / (WHOLE as int) <= shares[k],
{
    assert(shares.drop_last().drop_last() =~= Seq::<i64>::empty());
    assert(total(Seq::<i64>::empty()) == 0);
    assert(total(shares.drop_last()) == shares[0]);
    let w = total(shares);
    let x = shares[k] as int;
    let f = part(WHOLE as int, shares, k);
    part_is_proportional(WHOLE as int, shares, k);
    assert(0 <= f && f <= WHOLE + 1) by (nonlinear_arith)
        requires
            (f - 1) * w < WHOLE * x,
            WHOLE * x < (f + 1) * w,
            0 < x <= w,
            w <= WHOLE,
            WHOLE == 1073741824,
    ;
    assert(as_split_shares(shares)[k] == f);
    let r = (w * f) / (WHOLE as int);
    assert(x - 1 <= r && r <= x) by (nonlinear_arith)
        requires
            (f - 1) * w < WHOLE * x,
            WHOLE * x < (f + 1) * w,
            0 < w <= WHOLE,
            WHOLE == 1073741824,
            r == (w * f) / (WHOLE as int),
    ;
}

/// A tree with a window and its neighbor in a column of their own, before they are halved.
pub open spec fn in_column(t: Tree, window: usize, neighbor: usize, direction: Direction, gaps: Gaps) -> Tree {
    let split = t.len() as usize;
    unstack_remembered(
        wrapped(
            with_new_split(t, TilingDirection::Vertical, gaps),
            split,
            t[window as int].parent->0,
            stack_order(window, neighbor, direction),
        ),
        split,
    )
}

/// What is known of the column that two tiles of a row stand in.
pub open spec fn column_holds(
    t: Tree,
    u: Tree,
    window: usize,
    neighbor: usize,
    direction: Direction,
) -> bool {
    let p = t[window as int].parent->0;
    let split = t.len() as usize;
    let ids = stack_order(window, neighbor, direction);
    &&& wf(u)
    &&& u.len() == t.len() + 1
    &&& kind(u, window) == ContainerKind::TilingWindow
    &&& kind(u, split) == ContainerKind::Split
    &&& kind(u, p) == kind(t, p)
    &&& u[window as int].parent == Some(split)
    &&& u[split as int].parent == Some(p)
    &&& u[p as int].data.tiling_direction == TilingDirection::Horizontal
    &&& u[split as int].data.tiling_direction == TilingDirection::Vertical
    &&& forall|y: usize| #[trigger]
        tiles(u, split).contains(y) <==> y == window || y == neighbor
    &&& share_of(u, split) == total(shares_of(t, ids))
    &&& unstack_fraction(u, split, window) == Some(
        as_split_shares(shares_of(t, ids))[position(ids, window)],
    )
}

/// The other tiles of the row are as they were.
pub open spec fn row_untouched(t: Tree, u: Tree, window: usize, neighbor: usize) -> bool {
    let p = t[window as int].parent->0;
    forall|y: usize|
        #![trigger share_of(u, y)]
        tiles(t, p).contains(y) && y != window && y != neighbor ==> share_of(u, y) == share_of(t, y)
            && u[y as int].parent == Some(p) && is_tile(u, y)
}

#[verifier::spinoff_prover]
#[verifier::rlimit(40)]
pub proof fn lemma_in_column(
    t: Tree,
    window: usize,
    neighbor: usize,
    direction: Direction,
    gaps: Gaps,
)
    requires
        wf(t),
        can_stack(t, window, neighbor),
    ensures
        column_holds(t, in_column(t, window, neighbor, direction, gaps), window, neighbor, direction),
        row_untouched(t, in_column(t, window, neighbor, direction, gaps), window, neighbor),
{
    let p = t[window as int].parent->0;
    let split = t.len() as usize;
    let ids = stack_order(window, neighbor, direction);
    let n = with_new_split(t, TilingDirection::Vertical, gaps);
    lemma_parent_facts(t, window);
    lemma_push_wf(t, split_data(TilingDirection::Vertical, gaps));
    lemma_new_split(t, TilingDirection::Vertical, gaps, p);
    lemma_tiles_are(t, p);
    assert(ids.no_duplicates());
    assert(tiles(t, p).contains(window) && tiles(t, p).contains(neighbor));
    assert(are_tiles_of(n, ids, p)) by {
        assert forall|j: int| 0 <= j < ids.len() implies tiles(n, p).contains(#[trigger] ids[j]) by {
            assert(tiles(t, p).contains(ids[j]));
        }
    }
    lemma_wrapped(n, split, p, ids);
    wrapping_keeps_tree(n, split, p, ids);
    let w = wrapped(n, split, p, ids);
    lemma_position(ids, window);
    assert(ids.contains(window)) by {
        assert(ids[0] == window || ids[1] == window);
    }
    assert(ids.contains(neighbor)) by {
        assert(ids[0] == neighbor || ids[1] == neighbor);
    }
    let k = position(ids, window);
    assert(shares_of(n, ids) =~= shares_of(t, ids));
    let shares = shares_of(t, ids);
    lemma_share_returns(shares, k);
    lemma_wrapped_split(n, split, p, ids);
    lemma_all_tiles(w, ids);
    assert(tiles(w, split) == ids);
    assert(shares_of(w, ids) =~= as_split_shares(shares)) by {
        assert forall|j: int| 0 <= j < ids.len() implies share_of(w, #[trigger] ids[j])
            == as_split_shares(shares)[j] by {
            lemma_wrapped_shares(n, split, p, ids, j);
        }
    }
    let r = unstack_remembered(w, split);
    lemma_noted(ids, as_split_shares(shares), k);
    assert forall|i: int| 0 <= i < r.len() implies share_ok(
        #[trigger] r[i].data.tiling_size as int,
    ) by {
        assert(share_ok(w[i].data.tiling_size as int));
    }
    lemma_same_links_wf(w, r);
    lemma_all_tiles(r, ids);
    assert(tiles(r, split) == ids);
    assert forall|y: usize| #[trigger] tiles(r, split).contains(y) <==> y == window || y
        == neighbor by {
        if ids.contains(y) {
            let j = choose|j: int| 0 <= j < ids.len() && ids[j] == y;
            assert(j == 0 || j == 1);
        }
    }
    assert forall|y: usize|
        #![trigger share_of(r, y)]
        tiles(t, p).contains(y) && y != window && y != neighbor implies share_of(r, y) == share_of(
        t,
        y,
    ) && r[y as int].parent == Some(p) && is_tile(r, y) by {
        assert(!ids.contains(y)) by {
            if ids.contains(y) {
                let j = choose|j: int| 0 <= j < ids.len() && ids[j] == y;
                assert(j == 0 || j == 1);
            }
        }
        if y == p {
            lemma_parent_facts(t, p);
        }
        assert(w[y as int] == n[y as int]);
    }
}

/// What stacking a window with its neighbor leaves in the tree.
#[verifier::spinoff_prover]
#[verifier::rlimit(40)]
pub proof fn lemma_stacked(
    t: Tree,
    window: usize,
    neighbor: usize,
    direction: Direction,
    gaps: Gaps,
)
    requires
        wf(t),
        can_stack(t, window, neighbor),
    ensures
        column_holds(t, stacked(t, window, neighbor, direction, gaps), window, neighbor, direction),
        row_untouched(t, stacked(t, window, neighbor, direction, gaps), window, neighbor),
{
    reveal(stacked);
    let p = t[window as int].parent->0;
    let split = t.len() as usize;
    lemma_in_column(t, window, neighbor, direction, gaps);
    lemma_parent_facts(t, window);
    let r = in_column(t, window, neighbor, direction, gaps);
    let h = resized(r, window, (WHOLE as int) / 2);
    resizing_keeps_links(r, window, (WHOLE as int) / 2);
    lemma_tile_siblings(r, window);
    lemma_parent_facts(r, split);
    let siblings = tile_siblings(r, window);
    assert forall|i: int| 0 <= i < r.len() && r[i].parent != Some(split) implies #[trigger] h[i]
        == r[i] by {
        if siblings.contains(i as usize) {
            let j = choose|j: int| 0 <= j < siblings.len() && siblings[j] == i as usize;
            assert(r[siblings[j] as int].parent == r[window as int].parent);
        }
    }
    assert(h[split as int] == r[split as int]);
    assert(r[p as int].parent != Some(split)) by {
        if r[p as int].parent == Some(split) {
            let rank = choose|rank: Seq<int>| ranked(r, rank);
            assert(r[p as int].parent == Some(split));
            assert(rank[p as int] < rank[split as int]);
            assert(r[split as int].parent == Some(p));
            assert(rank[split as int] < rank[p as int]);
        }
    }
    assert(h[p as int] == r[p as int]);
    let place = position(h[split as int].children, window);
    let u = moved(h, window, split, place);
    assert(h[window as int].parent == Some(split));
    lemma_window_childless(h, window);
    lemma_position(h[split as int].children, window);
    moving_keeps_tree(h, window, split, place);
    lemma_moved_within(h, window, split, place);
    assert(u == with_children(h, split, shifted(h[split as int].children, window, place)));
    lemma_tiles_are(u, split);
    lemma_tiles_are(r, split);
    assert forall|y: usize| #[trigger] tiles(u, split).contains(y) <==> y == window || y
        == neighbor by {
        assert(tiles(r, split).contains(y) <==> y == window || y == neighbor);
        assert(tiles(r, split).contains(y) <==> valid(r, y) && is_tile(r, y) && r[y as int].parent
            == Some(split));
        if valid(r, y) {
            assert(h[y as int].parent == r[y as int].parent);
        }
    }
    assert forall|y: usize|
        #![trigger share_of(u, y)]
        tiles(t, p).contains(y) && y != window && y != neighbor implies share_of(u, y) == share_of(
        t,
        y,
    ) && u[y as int].parent == Some(p) && is_tile(u, y) by {
        lemma_tiles_are(t, p);
        assert(share_of(r, y) == share_of(t, y));
        assert(p != split);
        assert(h[y as int] == r[y as int]);
    }
}

pub proof fn lemma_first_under(t: Tree, containers: Seq<usize>, parent: usize)
    requires
        containers.len() > 0,
        t[containers[0] as int].parent == Some(parent),
    ensures
        first_under(t, containers, parent) == Some(containers[0]),
    decreases containers.len(),
{
    let front = containers.drop_last();
    if front.len() > 0 {
        assert(front[0] == containers[0]);
        lemma_first_under(t, front, parent);
    } else {
        assert(first_under(t, front, parent) is None);
    }
}

/// A window that was stacked with its neighbor and then leaves the column for the row gets the
/// share back that it had there, less at most one unit. What it does not get its neighbor has, and
/// all other tiles of the row have the shares that they had before.
#[verifier::spinoff_prover]
#[verifier::rlimit(40)]
pub proof fn unstacking_restores_shares(
    t: Tree,
    sync: PendingSyncView,
    window: usize,
    neighbor: usize,
    direction: Direction,
    back: Direction,
    gaps: Gaps,
    other: usize,
)
    requires
        wf(t),
        can_stack(t, window, neighbor),
    ensures
        ({
            let p = t[window as int].parent->0;
            let column = t.len() as usize;
            let there = stacked(t, window, neighbor, direction, gaps);
            let outcome = moved_into_ancestor(there, sync, window, p, back);
            let u = outcome.0;
            &&& outcome.2 is Ok
            &&& share_of(t, window) - 1 <= share_of(u, window) <= share_of(t, window)
            &&& share_of(u, window) + share_of(u, column) == share_of(t, window) + share_of(
                t,
                neighbor,
            )
            &&& tiles(t, p).contains(other) && other != window && other != neighbor ==> share_of(
                u,
                other,
            ) == share_of(t, other)
        }),
{
    reveal(moved_beside);
    let p = t[window as int].parent->0;
    let column = t.len() as usize;
    let ids = stack_order(window, neighbor, direction);
    let v = stacked(t, window, neighbor, direction, gaps);
    lemma_parent_facts(t, window);
    lemma_stacked(t, window, neighbor, direction, gaps);
    lemma_position(ids, window);
    assert(ids.contains(window)) by {
        assert(ids[0] == window || ids[1] == window);
    }
    let k = position(ids, window);
    let shares = shares_of(t, ids);
    lemma_share_returns(shares, k);
    assert(total(shares) == share_of(t, window) + share_of(t, neighbor));
    let above = ancestors(v, window);
    assert(above[0] == column);
    lemma_first_under(v, above, p);
    lemma_tiles_are(v, column);
    lemma_two(tiles(v, column), window, neighbor);
    let share = (share_of(v, column) * as_split_shares(shares)[k]) / (WHOLE as int);
    assert(unstacked_share(v, window, column, p) == Some(share));
    lemma_tiles_are(v, p);
    let row = tiles(v, p);
    let restored = row_restored(v, row, column, share);
    lemma_window_childless(v, window);
    lemma_parent_facts(v, column);
    let place = position(v[p as int].children, column);
    lemma_position(v[p as int].children, column);
    let index = if back.is_backward() {
        place
    } else {
        place + 1
    };
    moving_changes_shares_only(v, window, p, index);
    let m = moved(v, window, p, index);
    assert forall|j: int| 0 <= j < row.len() implies valid(m, #[trigger] row[j]) by {
        assert(row.contains(row[j]));
    }
    lemma_with_shares(m, row, restored);
    let s = with_shares(m, row, restored);
    let u = with_share(s, window, saturated(share));
    assert(u == moved_beside(v, window, column, p, back));
    assert(row.contains(column));
    let i = choose|i: int| 0 <= i < row.len() && row[i] == column;
    assert(share_of(s, row[i]) == restored[i]);
    lemma_tiles_are(t, p);
    if tiles(t, p).contains(other) && other != window && other != neighbor {
        assert(share_of(v, other) == share_of(t, other));
        assert(row.contains(other));
        let j = choose|j: int| 0 <= j < row.len() && row[j] == other;
        assert(share_of(s, row[j]) == restored[j]);
    }
}

/// Where all containers are tiles, they are the tiles.
pub proof fn lemma_all_tiles(t: Tree, ids: Seq<usize>)
    requires
        forall|k: int| 0 <= k < ids.len() ==> is_tile(t, #[trigger] ids[k]),
    ensures
        tiles_in(t, ids) == ids,
    decreases ids.len(),
{
    if ids.len() > 0 {
        let front = ids.drop_last();
        assert forall|k: int| 0 <= k < front.len() implies is_tile(t, #[trigger] front[k]) by {
            assert(is_tile(t, ids[k]));
        }
        lemma_all_tiles(t, front);
        assert(is_tile(t, ids[ids.len() - 1]));
        assert(ids =~= front.push(ids.last()));
    }
}

/// A list of just two items.
proof fn lemma_two(s: Seq<usize>, a: usize, b: usize)
    requires
        s.no_duplicates(),
        a != b,
        forall|y: usize| #[trigger] s.contains(y) <==> y == a || y == b,
    ensures
        s.len() == 2,
{
    assert(s.contains(a) && s.contains(b));
    let i = choose|i: int| 0 <= i < s.len() && s[i] == a;
    let j = choose|j: int| 0 <= j < s.len() && s[j] == b;
    if s.len() > 2 {
        let m = if i != 0 && j != 0 {
            0
        } else if i != 1 && j != 1 {
            1
        } else {
            2int
        };
        assert(s.contains(s[m]));
        assert(s[m] != s[i] && s[m] != s[j]);
    }
}

} // verus!
