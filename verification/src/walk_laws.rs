//! Walks through the tree reach all they are meant to reach.
//!
//! A walk takes no more steps than there are containers. No container is met twice on the way, so
//! that is always enough.

use vstd::prelude::*;

use crate::lists::{
    lemma_distinct_bounded, lemma_joined_contains, lemma_push_contains, lemma_push_unique,
};
use crate::placement::{rect_fuel, rect_of, rect_within};
use crate::traversal::{
    ancestors, ancestors_fuel, descend, descendants, enclosing_fuel, workspace_of,
};
use crate::tree::{is_tile, kind, ranked, valid, wf, ContainerKind, Tree};
use crate::tree_laws::{lemma_children, lemma_parent_facts};

verus! {

/// The last container of a walk upwards.
pub open spec fn top_of(id: usize, above: Seq<usize>) -> usize {
    if above.len() == 0 {
        id
    } else {
        above.last()
    }
}

/// A path of distinct containers has room for the steps that are left.
proof fn lemma_path_fits(t: Tree, path: Seq<usize>)
    requires
        path.no_duplicates(),
        forall|k: int| 0 <= k < path.len() ==> valid(t, #[trigger] path[k]),
    ensures
        path.len() <= t.len(),
{
    assert forall|k: int| 0 <= k < path.len() implies (#[trigger] path[k]) < t.len() by {
        assert(valid(t, path[k]));
    }
    lemma_distinct_bounded(path, t.len() as int);
}

/// Whether a path holds distinct containers, none of them ranked above the next one.
spec fn climbs_to(t: Tree, rank: Seq<int>, path: Seq<usize>, id: usize) -> bool {
    &&& path.no_duplicates()
    &&& forall|k: int|
        0 <= k < path.len() ==> valid(t, #[trigger] path[k]) && rank[path[k] as int]
            <= rank[id as int]
}

proof fn lemma_climb(t: Tree, rank: Seq<int>, path: Seq<usize>, id: usize, fuel: nat)
    requires
        wf(t),
        ranked(t, rank),
        valid(t, id),
        climbs_to(t, rank, path, id),
        path.len() + fuel >= t.len(),
    ensures
        t[top_of(id, ancestors_fuel(t, id, fuel)) as int].parent is None,
    decreases fuel,
{
    if let Some(p) = t[id as int].parent {
        lemma_parent_facts(t, id);
        assert(t[id as int].parent == Some(p));
        assert(rank[id as int] < rank[p as int]);
        if path.contains(p) {
            let k = choose|k: int| 0 <= k < path.len() && path[k] == p;
            assert(rank[path[k] as int] <= rank[id as int]);
        }
        lemma_push_unique(path, p);
        let longer = path.push(p);
        assert forall|k: int| 0 <= k < longer.len() implies valid(t, #[trigger] longer[k])
            && rank[longer[k] as int] <= rank[p as int] by {
            if k < path.len() {
                assert(valid(t, path[k]));
            }
        }
        lemma_path_fits(t, longer);
        lemma_climb(t, rank, longer, p, (fuel - 1) as nat);
        let above = ancestors_fuel(t, p, (fuel - 1) as nat);
        assert(ancestors_fuel(t, id, fuel) == seq![p] + above);
        assert(top_of(id, seq![p] + above) == top_of(p, above));
    }
}

/// The ancestors of a container go all the way up: the last of them stands in no other.
pub proof fn ancestors_reach_the_top(t: Tree, id: usize)
    requires
        wf(t),
        valid(t, id),
    ensures
        t[top_of(id, ancestors(t, id)) as int].parent is None,
{
    let rank = choose|rank: Seq<int>| ranked(t, rank);
    lemma_climb(t, rank, seq![id], id, t.len());
}

proof fn lemma_rect_climb(t: Tree, rank: Seq<int>, path: Seq<usize>, id: usize, fuel: nat)
    requires
        wf(t),
        ranked(t, rank),
        valid(t, id),
        climbs_to(t, rank, path, id),
        path.len() + fuel >= t.len(),
    ensures
        rect_fuel(t, id, fuel) == rect_fuel(t, id, fuel + 1),
    decreases fuel,
{
    if let Some(p) = t[id as int].parent {
        lemma_parent_facts(t, id);
        assert(t[id as int].parent == Some(p));
        assert(rank[id as int] < rank[p as int]);
        if path.contains(p) {
            let k = choose|k: int| 0 <= k < path.len() && path[k] == p;
            assert(rank[path[k] as int] <= rank[id as int]);
        }
        lemma_push_unique(path, p);
        let longer = path.push(p);
        assert forall|k: int| 0 <= k < longer.len() implies valid(t, #[trigger] longer[k])
            && rank[longer[k] as int] <= rank[p as int] by {
            if k < path.len() {
                assert(valid(t, path[k]));
            }
        }
        lemma_path_fits(t, longer);
        lemma_rect_climb(t, rank, longer, p, (fuel - 1) as nat);
    }
}

/// The rectangle of a tile is its part of the rectangle of the container that it stands in.
pub proof fn tiles_part_their_container(t: Tree, id: usize)
    requires
        wf(t),
        valid(t, id),
        is_tile(t, id),
    ensures
        t[id as int].parent is None ==> rect_of(t, id) is None,
        t[id as int].parent matches Some(p) ==> rect_of(t, id) == (match rect_of(t, p) {
            Some(outer) => rect_within(t, id, p, outer),
            None => None,
        }),
{
    if let Some(p) = t[id as int].parent {
        let rank = choose|rank: Seq<int>| ranked(t, rank);
        lemma_parent_facts(t, id);
        lemma_rect_climb(t, rank, seq![p], p, (t.len() - 1) as nat);
    }
}

proof fn lemma_enclosing_missing(t: Tree, id: usize, wanted: ContainerKind, fuel: nat)
    ensures
        enclosing_fuel(t, id, wanted, fuel) is None <==> kind(t, id) != wanted && forall|k: int|
            0 <= k < ancestors_fuel(t, id, fuel).len() ==> kind(
                t,
                #[trigger] ancestors_fuel(t, id, fuel)[k],
            ) != wanted,
    decreases fuel,
{
    let all = ancestors_fuel(t, id, fuel);
    match t[id as int].parent {
        Some(p) if fuel > 0 => {
            let rest = ancestors_fuel(t, p, (fuel - 1) as nat);
            lemma_enclosing_missing(t, p, wanted, (fuel - 1) as nat);
            assert(all == seq![p] + rest);
            assert(all[0] == p);
            assert forall|k: int| 0 <= k < rest.len() implies #[trigger] rest[k] == all[k + 1] by {
            }
            assert forall|k: int| 1 <= k < all.len() implies #[trigger] all[k] == rest[k - 1] by {
            }
            if kind(t, id) != wanted && enclosing_fuel(t, id, wanted, fuel) is None {
                assert forall|k: int| 0 <= k < all.len() implies kind(t, #[trigger] all[k])
                    != wanted by {
                    if k > 0 {
                        assert(kind(t, rest[k - 1]) != wanted);
                    }
                }
            }
            if kind(t, id) != wanted && (forall|k: int|
                0 <= k < all.len() ==> kind(t, #[trigger] all[k]) != wanted) {
                assert(kind(t, all[0]) != wanted);
                assert forall|k: int| 0 <= k < rest.len() implies kind(t, #[trigger] rest[k])
                    != wanted by {
                    assert(kind(t, all[k + 1]) != wanted);
                }
            }
        },
        _ => {},
    }
}

/// A container is on no workspace only if it is none itself and stands in none at any depth.
pub proof fn workspace_is_found(t: Tree, id: usize)
    requires
        wf(t),
        valid(t, id),
    ensures
        workspace_of(t, id) is None <==> kind(t, id) != ContainerKind::Workspace && forall|k: int|
            0 <= k < ancestors(t, id).len() ==> kind(t, #[trigger] ancestors(t, id)[k])
                != ContainerKind::Workspace,
{
    lemma_enclosing_missing(t, id, ContainerKind::Workspace, t.len());
}

proof fn lemma_descend_holds(t: Tree, ids: Seq<usize>, fuel: nat, c: usize)
    requires
        fuel > 0,
        ids.contains(c),
    ensures
        descend(t, ids, fuel).contains(c),
    decreases ids.len(),
{
    let front = ids.drop_last();
    let rest = descend(t, t[ids.last() as int].children, (fuel - 1) as nat);
    let head = descend(t, front, fuel).push(ids.last());
    assert(ids =~= front.push(ids.last()));
    lemma_push_contains(front, ids.last(), c);
    if front.contains(c) {
        lemma_descend_holds(t, front, fuel, c);
    }
    lemma_push_contains(descend(t, front, fuel), ids.last(), c);
    lemma_joined_contains(head, rest, c);
}

/// Whether a path holds distinct containers, all of them ranked above some others.
spec fn descends_to(t: Tree, rank: Seq<int>, path: Seq<usize>, ids: Seq<usize>) -> bool {
    &&& path.no_duplicates()
    &&& forall|k: int| 0 <= k < path.len() ==> valid(t, #[trigger] path[k])
    &&& forall|k: int| 0 <= k < ids.len() ==> valid(t, #[trigger] ids[k])
    &&& forall|j: int, k: int|
        0 <= j < path.len() && 0 <= k < ids.len() ==> rank[#[trigger] path[j] as int]
            > rank[#[trigger] ids[k] as int]
}

proof fn lemma_longer_path(
    t: Tree,
    rank: Seq<int>,
    path: Seq<usize>,
    ids: Seq<usize>,
)
    requires
        wf(t),
        ranked(t, rank),
        ids.len() > 0,
        descends_to(t, rank, path, ids),
    ensures
        descends_to(t, rank, path.push(ids.last()), t[ids.last() as int].children),
{
    let last = ids.last();
    let inner = t[last as int].children;
    let longer = path.push(last);
    assert(valid(t, ids[ids.len() - 1]));
    if path.contains(last) {
        let j = choose|j: int| 0 <= j < path.len() && path[j] == last;
        assert(rank[path[j] as int] > rank[ids[ids.len() - 1] as int]);
    }
    lemma_push_unique(path, last);
    lemma_children(t, last);
    assert forall|k: int| 0 <= k < inner.len() implies valid(t, #[trigger] inner[k]) by {
        assert(valid(t, t[last as int].children[k]));
    }
    assert forall|k: int| 0 <= k < longer.len() implies valid(t, #[trigger] longer[k]) by {
        if k < path.len() {
            assert(valid(t, path[k]));
        }
    }
    assert forall|j: int, k: int| 0 <= j < longer.len() && 0 <= k < inner.len() implies rank[
        #[trigger] longer[j] as int] > rank[#[trigger] inner[k] as int] by {
        assert(valid(t, t[last as int].children[k]));
        assert(t[inner[k] as int].parent == Some(last));
        assert(rank[inner[k] as int] < rank[last as int]);
        if j < path.len() {
            assert(rank[path[j] as int] > rank[ids[ids.len() - 1] as int]);
        }
    }
}

proof fn lemma_descend_closed(
    t: Tree,
    rank: Seq<int>,
    path: Seq<usize>,
    ids: Seq<usize>,
    fuel: nat,
    p: usize,
    c: usize,
)
    requires
        wf(t),
        ranked(t, rank),
        descends_to(t, rank, path, ids),
        path.len() + fuel >= t.len(),
        valid(t, c),
        t[c as int].parent == Some(p),
        descend(t, ids, fuel).contains(p),
    ensures
        descend(t, ids, fuel).contains(c),
    decreases fuel, ids.len(),
{
    let front = ids.drop_last();
    let last = ids.last();
    let inner = t[last as int].children;
    let rest = descend(t, inner, (fuel - 1) as nat);
    let head = descend(t, front, fuel).push(last);
    assert(descend(t, ids, fuel) == head + rest);
    lemma_joined_contains(head, rest, p);
    lemma_joined_contains(head, rest, c);
    lemma_push_contains(descend(t, front, fuel), last, p);
    lemma_push_contains(descend(t, front, fuel), last, c);
    if descend(t, front, fuel).contains(p) {
        assert forall|k: int| 0 <= k < front.len() implies valid(t, #[trigger] front[k]) by {
            assert(valid(t, ids[k]));
        }
        assert forall|j: int, k: int| 0 <= j < path.len() && 0 <= k < front.len() implies rank[
            #[trigger] path[j] as int] > rank[#[trigger] front[k] as int] by {
            assert(rank[path[j] as int] > rank[ids[k] as int]);
        }
        lemma_descend_closed(t, rank, path, front, fuel, p, c);
    } else {
        lemma_longer_path(t, rank, path, ids);
        let longer = path.push(last);
        if p == last {
            lemma_parent_facts(t, c);
            assert(inner.contains(c));
            let k = choose|k: int| 0 <= k < inner.len() && inner[k] == c;
            if longer.contains(c) {
                let j = choose|j: int| 0 <= j < longer.len() && longer[j] == c;
                assert(rank[longer[j] as int] > rank[inner[k] as int]);
            }
            lemma_push_unique(longer, c);
            let longest = longer.push(c);
            assert forall|j: int| 0 <= j < longest.len() implies valid(t, #[trigger] longest[j]) by {
                if j < longer.len() {
                    assert(valid(t, longer[j]));
                }
            }
            lemma_path_fits(t, longest);
            lemma_descend_holds(t, inner, (fuel - 1) as nat, c);
        } else {
            lemma_descend_closed(t, rank, longer, inner, (fuel - 1) as nat, p, c);
        }
    }
}

/// The descendants of a container are complete: what stands in the container is among them, and so
/// is what stands in one of them.
pub proof fn descendants_are_complete(t: Tree, id: usize, c: usize)
    requires
        wf(t),
        valid(t, id),
        valid(t, c),
        t[c as int].parent matches Some(p) && (p == id || descendants(t, id).contains(p)),
    ensures
        descendants(t, id).contains(c),
{
    let rank = choose|rank: Seq<int>| ranked(t, rank);
    let p = t[c as int].parent->0;
    let inner = t[id as int].children;
    lemma_children(t, id);
    assert forall|k: int| 0 <= k < inner.len() implies valid(t, #[trigger] inner[k]) by {
        assert(valid(t, t[id as int].children[k]));
    }
    let path = seq![id];
    assert forall|j: int, k: int| 0 <= j < path.len() && 0 <= k < inner.len() implies rank[
        #[trigger] path[j] as int] > rank[#[trigger] inner[k] as int] by {
        assert(valid(t, t[id as int].children[k]));
        assert(t[inner[k] as int].parent == Some(id));
        assert(rank[inner[k] as int] < rank[id as int]);
    }
    if p == id {
        lemma_parent_facts(t, c);
        lemma_descend_holds(t, inner, t.len(), c);
    } else {
        lemma_descend_closed(t, rank, path, inner, t.len(), p, c);
    }
}

} // verus!
