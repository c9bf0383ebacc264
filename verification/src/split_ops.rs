//! Keeping splits free of redundancy.

use vstd::prelude::*;

use crate::layout::Layout;
use crate::shares::share_ok;
use crate::traversal::{descendants, of_kind};
use crate::tree::{
    flattened, is_only_child_of_split, kind, share_of, shares_of, tiles, valid, with_direction,
    with_unstack, ContainerKind, Tree,
};
use crate::tree_laws::{
    lemma_children, lemma_parent_facts, lemma_same_links_wf, lemma_tiles, same_links,
};
use crate::window_laws::{flattening_keeps_windows, keeps_windows};

verus! {

/// The share that a container had before it was stacked, as noted by the split it stands in.
pub open spec fn noted_share(unstack: Seq<(usize, i64)>, id: usize) -> Option<i64>
    decreases unstack.len(),
{
    if unstack.len() == 0 {
        None
    } else {
        match noted_share(unstack.drop_last(), id) {
            Some(share) => Some(share),
            None => if unstack.last().0 == id {
                Some(unstack.last().1)
            } else {
                None
            },
        }
    }
}

pub open spec fn unstack_fraction(t: Tree, split: usize, id: usize) -> Option<i64> {
    noted_share(t[split as int].unstack, id)
}

/// What a split notes of its tiles when they are stacked.
pub open spec fn noted_shares(ids: Seq<usize>, shares: Seq<i64>) -> Seq<(usize, i64)> {
    Seq::new(ids.len(), |i: int| (ids[i], shares[i]))
}

/// The tree after a split has noted the shares of its tiles.
pub open spec fn unstack_remembered(t: Tree, split: usize) -> Tree {
    with_unstack(t, split, noted_shares(tiles(t, split), shares_of(t, tiles(t, split))))
}

/// Whether a split adds nothing to the layout: it holds at most one container, or it runs in
/// the direction of its parent and was not put there as a column of its own.
pub open spec fn is_redundant(t: Tree, split: usize) -> bool {
    t[split as int].parent matches Some(p) && (t[split as int].children.len() <= 1 || (kind(
        t,
        p,
    ).is_direction() && t[p as int].data.tiling_direction
        == t[split as int].data.tiling_direction && !(kind(t, p) == ContainerKind::Split
        && unstack_fraction(t, p, split) is Some)))
}

/// The tree after flattening those of some splits that are redundant, the last one first.
pub open spec fn redundant_flattened(t: Tree, splits: Seq<usize>) -> Tree
    decreases splits.len(),
{
    if splits.len() == 0 {
        t
    } else {
        let split = splits.last();
        redundant_flattened(
            if is_redundant(t, split) {
                flattened(t, split)
            } else {
                t
            },
            splits.drop_last(),
        )
    }
}

/// The tree after flattening the redundant splits on a workspace, inner ones first.
pub open spec fn splits_normalized(t: Tree, workspace: usize) -> Tree {
    redundant_flattened(t, of_kind(t, descendants(t, workspace), ContainerKind::Split))
}

/// The tree after flattening the parent of a container as long as the parent is a split that
/// holds nothing else.
pub open spec fn lone_parents_flattened(t: Tree, id: usize, fuel: nat) -> Tree
    decreases fuel,
{
    if fuel > 0 && is_only_child_of_split(t, id) {
        lone_parents_flattened(flattened(t, t[id as int].parent->0), id, (fuel - 1) as nat)
    } else {
        t
    }
}

/// The split that takes part in flattening instead of a split: the split that is all it
/// holds, if so.
pub open spec fn inner_split(t: Tree, split: usize) -> Option<usize> {
    if t[split as int].children.len() == 1 && kind(t, t[split as int].children[0])
        == ContainerKind::Split {
        Some(t[split as int].children[0])
    } else {
        None
    }
}

/// The tree after a split under `parent` has been cleaned up: a split around a split is
/// flattened, and so is a split that runs in the direction of its parent.
pub open spec fn child_split_flattened(t: Tree, parent: usize, split: usize) -> Tree {
    let (u, s) = match inner_split(t, split) {
        Some(inner) => (flattened(t, split), inner),
        None => (t, split),
    };
    if u[s as int].data.tiling_direction == u[parent as int].data.tiling_direction {
        flattened(u, s)
    } else {
        u
    }
}

pub open spec fn child_splits_flattened_of(t: Tree, parent: usize, splits: Seq<usize>) -> Tree
    decreases splits.len(),
{
    if splits.len() == 0 {
        t
    } else {
        child_split_flattened(
            child_splits_flattened_of(t, parent, splits.drop_last()),
            parent,
            splits.last(),
        )
    }
}

/// The tree after the splits right under a container have been cleaned up. A split that is
/// the only tile gives the container its direction.
pub open spec fn child_splits_flattened(t: Tree, parent: usize) -> Tree {
    let ids = tiles(t, parent);
    if !kind(t, parent).is_direction() {
        t
    } else if ids.len() == 1 {
        if kind(t, ids[0]) == ContainerKind::Split {
            with_direction(
                flattened(t, ids[0]),
                parent,
                t[ids[0] as int].data.tiling_direction,
            )
        } else {
            t
        }
    } else {
        child_splits_flattened_of(t, parent, of_kind(t, ids, ContainerKind::Split))
    }
}

fn find_noted(unstack: &Vec<(usize, i64)>, id: usize) -> (res: Option<i64>)
    ensures
        res == noted_share(unstack@, id),
{
    assert(unstack@.take(0) =~= Seq::<(usize, i64)>::empty());
    let mut res: Option<i64> = None;
    for i in 0..unstack.len()
        invariant
            res == noted_share(unstack@.take(i as int), id),
    {
        assert(unstack@.take(i + 1).drop_last() =~= unstack@.take(i as int));
        if res.is_none() && unstack[i].0 == id {
            res = Some(unstack[i].1);
        }
    }
    assert(unstack@.take(unstack.len() as int) =~= unstack@);
    res
}

impl Layout {
    /// The share that a container had before it was stacked in a split, if the split has noted
    /// it.
    pub fn unstack_fraction(&self, split: usize, id: usize) -> (res: Option<i64>)
        requires
            valid(self@, split),
        ensures
            res == unstack_fraction(self@, split, id),
    {
        let noted = self.unstack(split);
        find_noted(&noted, id)
    }

    /// Notes the shares of a split's tiles.
    pub fn remember_unstack_shares(&mut self, split: usize)
        requires
            old(self).wf(),
            valid(old(self)@, split),
        ensures
            final(self)@ == unstack_remembered(old(self)@, split),
            final(self).wf(),
            same_links(old(self)@, final(self)@),
    {
        let ghost t = self@;
        proof {
            lemma_tiles(t, split);
        }
        let ids = self.tiling_children(split);
        let mut noted: Vec<(usize, i64)> = Vec::new();
        for i in 0..ids.len()
            invariant
                ids@ == tiles(self@, split),
                forall|k: int| 0 <= k < ids.len() ==> valid(self@, #[trigger] ids[k]),
                noted.len() == i,
                forall|k: int|
                    0 <= k < i ==> #[trigger] noted[k] == (ids[k], share_of(self@, ids[k])),
        {
            assert(valid(self@, ids[i as int]));
            noted.push((ids[i], self.tiling_size(ids[i])));
        }
        assert(noted@ =~= noted_shares(ids@, shares_of(t, ids@)));
        self.set_unstack(split, noted);
        proof {
            assert forall|i: int| 0 <= i < t.len() implies share_ok(
                #[trigger] self@[i].data.tiling_size as int,
            ) by {
                assert(share_ok(t[i].data.tiling_size as int));
            }
            lemma_same_links_wf(t, self@);
        }
    }

    fn is_split_redundant(&self, split: usize) -> (res: bool)
        requires
            self.wf(),
            valid(self@, split),
        ensures
            res == is_redundant(self@, split),
    {
        match self.parent(split) {
            Some(p) => {
                proof {
                    lemma_parent_facts(self@, split);
                }
                if self.child_count(split) <= 1 {
                    return true;
                }
                if !self.is_direction(p) || self.tiling_direction(p) != self.tiling_direction(
                    split,
                ) {
                    return false;
                }
                !(self.kind(p) == ContainerKind::Split && self.unstack_fraction(
                    p,
                    split,
                ).is_some())
            },
            None => false,
        }
    }

    /// Flattens the redundant splits on a workspace.
    pub fn normalize_splits(&mut self, workspace: usize)
        requires
            old(self).wf(),
            valid(old(self)@, workspace),
        ensures
            final(self)@ == splits_normalized(old(self)@, workspace),
            final(self).wf(),
            keeps_windows(old(self)@, final(self)@),
            final(self)@.len() == old(self)@.len(),
    {
        let ghost t = self@;
        let all = self.descendants(workspace);
        let splits = self.filter_kind(&all, ContainerKind::Split);
        let mut left: usize = splits.len();
        assert(splits@.take(left as int) =~= splits@);
        while left > 0
            invariant
                self.wf(),
                t == old(self)@,
                keeps_windows(t, self@),
                self@.len() == t.len(),
                left <= splits.len(),
                forall|k: int|
                    0 <= k < splits.len() ==> valid(t, #[trigger] splits[k]) && kind(t, splits[k])
                        == ContainerKind::Split,
                splits_normalized(t, workspace) == redundant_flattened(
                    self@,
                    splits@.take(left as int),
                ),
            decreases left,
        {
            let split = splits[left - 1];
            proof {
                assert(valid(t, splits[left - 1]));
                assert(self@[split as int].data.kind == t[split as int].data.kind);
                assert(splits@.take(left as int).drop_last() =~= splits@.take(left - 1));
                assert(splits@.take(left as int).last() == split);
            }
            if self.is_split_redundant(split) {
                proof {
                    flattening_keeps_windows(self@, split);
                }
                let ghost before = self@;
                self.flatten_split_container(split);
            }
            left = left - 1;
        }
        assert(splits@.take(0) =~= Seq::<usize>::empty());
    }

    /// Flattens the parent of a container as long as it is a split that holds nothing else.
    pub fn flatten_lone_parents(&mut self, id: usize)
        requires
            old(self).wf(),
            valid(old(self)@, id),
        ensures
            final(self)@ == lone_parents_flattened(old(self)@, id, old(self)@.len()),
            final(self).wf(),
            keeps_windows(old(self)@, final(self)@),
            final(self)@.len() == old(self)@.len(),
    {
        let ghost t = self@;
        let mut fuel: usize = self.len();
        while fuel > 0
            invariant
                self.wf(),
                t == old(self)@,
                valid(t, id),
                keeps_windows(t, self@),
                self@.len() == t.len(),
                lone_parents_flattened(t, id, t.len()) == lone_parents_flattened(
                    self@,
                    id,
                    fuel as nat,
                ),
            decreases fuel,
        {
            match self.parent(id) {
                Some(p) => {
                    proof {
                        lemma_parent_facts(self@, id);
                    }
                    if self.kind(p) == ContainerKind::Split && self.child_count(p) == 1 {
                        proof {
                            flattening_keeps_windows(self@, p);
                        }
                        self.flatten_split_container(p);
                        fuel = fuel - 1;
                    } else {
                        return;
                    }
                },
                None => {
                    return;
                },
            }
        }
    }

    fn flatten_child_split(&mut self, parent: usize, split: usize)
        requires
            old(self).wf(),
            valid(old(self)@, parent),
            valid(old(self)@, split),
            kind(old(self)@, split) == ContainerKind::Split,
        ensures
            final(self)@ == child_split_flattened(old(self)@, parent, split),
            final(self).wf(),
            keeps_windows(old(self)@, final(self)@),
            final(self)@.len() == old(self)@.len(),
    {
        let ghost t = self@;
        proof {
            lemma_children(t, split);
        }
        let mut current: usize = split;
        let children = self.children(split);
        if children.len() == 1 {
            assert(valid(t, t[split as int].children[0]));
            if self.kind(children[0]) == ContainerKind::Split {
                proof {
                    flattening_keeps_windows(t, split);
                }
                self.flatten_split_container(split);
                current = children[0];
            }
        }
        let ghost u = self@;
        assert(u[current as int].data.kind == t[current as int].data.kind);
        if self.tiling_direction(current) == self.tiling_direction(parent) {
            proof {
                flattening_keeps_windows(u, current);
            }
            self.flatten_split_container(current);
        }
    }

    /// Cleans up the splits right under a container.
    pub fn flatten_child_split_containers(&mut self, parent: usize)
        requires
            old(self).wf(),
            valid(old(self)@, parent),
        ensures
            final(self)@ == child_splits_flattened(old(self)@, parent),
            final(self).wf(),
            keeps_windows(old(self)@, final(self)@),
            final(self)@.len() == old(self)@.len(),
    {
        let ghost t = self@;
        if !self.is_direction(parent) {
            return;
        }
        proof {
            lemma_tiles(t, parent);
        }
        let ids = self.tiling_children(parent);
        if ids.len() == 1 {
            assert(valid(t, tiles(t, parent)[0]));
            if self.kind(ids[0]) == ContainerKind::Split {
                let direction = self.tiling_direction(ids[0]);
                proof {
                    flattening_keeps_windows(t, ids[0]);
                }
                self.flatten_split_container(ids[0]);
                let ghost u = self@;
                self.set_tiling_direction(parent, direction);
                proof {
                    assert forall|i: int| 0 <= i < u.len() implies share_ok(
                        #[trigger] self@[i].data.tiling_size as int,
                    ) by {
                        assert(share_ok(u[i].data.tiling_size as int));
                    }
                    lemma_same_links_wf(u, self@);
                }
            }
            return;
        }
        assert forall|k: int| 0 <= k < ids.len() implies valid(t, #[trigger] ids[k]) by {
            assert(valid(t, tiles(t, parent)[k]));
        }
        let splits = self.filter_kind(&ids, ContainerKind::Split);
        assert(splits@.take(0) =~= Seq::<usize>::empty());
        for i in 0..splits.len()
            invariant
                self.wf(),
                t == old(self)@,
                keeps_windows(t, self@),
                self@.len() == t.len(),
                valid(t, parent),
                forall|k: int|
                    0 <= k < splits.len() ==> valid(t, #[trigger] splits[k]) && kind(t, splits[k])
                        == ContainerKind::Split,
                self@ == child_splits_flattened_of(t, parent, splits@.take(i as int)),
        {
            let split = splits[i];
            proof {
                assert(valid(t, splits[i as int]));
                assert(self@[split as int].data.kind == t[split as int].data.kind);
                assert(splits@.take(i + 1).drop_last() =~= splits@.take(i as int));
            }
            self.flatten_child_split(parent, split);
        }
        assert(splits@.take(splits.len() as int) =~= splits@);
    }
}

} // verus!
