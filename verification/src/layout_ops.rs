//! Changes to the container tree.

use vstd::prelude::*;

use crate::layout::Layout;
use crate::lists::{
    filter_items, find, first_place_of, insert_item, lemma_position, remove_item, shift_item,
    splice_items,
};
use crate::shares::{
    all_ok, clamp_target, cut, equal_weights, floor_div, lemma_total_equal_weights,
    lemma_total_take, saturate, share_ok, spread_over, sum_shares, total, MAX_CONTAINERS, WHOLE,
};
use crate::tree::{
    as_split_shares, attached, detached, flattened, focused, has_focus, is_tile, kind, linked,
    moved, only_child_freed, resized, scaled, shares_of, tiles, valid, wf, wrapped, ContainerKind,
};
use crate::tree_laws::{
    are_tiles_of, attaching_keeps_tree, cut_out, detaching_keeps_tree, flattening_keeps_tree,
    focusing_keeps_tree, lemma_children, lemma_flattened, lemma_parent_facts, lemma_same_links_wf,
    lemma_tile_siblings, lemma_tiles, lemma_with_parents, lemma_with_shares, linking_keeps_tree,
    moving_keeps_tree, resizing_keeps_links, same_kinds, same_links, unlinking_keeps_tree,
    wrapping_keeps_tree,
};

verus! {

/// The shares of a split's tiles as shares of the split's parent.
fn scale_shares(shares: &Vec<i64>, by: i64) -> (res: Vec<i64>)
    requires
        all_ok(shares@),
        share_ok(by as int),
        shares.len() <= MAX_CONTAINERS,
    ensures
        res@ == scaled(shares@, by as int),
        all_ok(res@),
{
    let mut res: Vec<i64> = Vec::new();
    let mut prefix: i128 = 0;
    let mut previous: i128 = 0;
    proof {
        assert(shares@.take(0) =~= Seq::<i64>::empty());
        assert(by * 0 == 0);
    }
    for i in 0..shares.len()
        invariant
            all_ok(shares@),
            share_ok(by as int),
            shares.len() <= MAX_CONTAINERS,
            prefix == total(shares@.take(i as int)),
            -(i * 1099511627776) <= prefix <= i * 1099511627776,
            previous == (by * total(shares@.take(i as int))) / (WHOLE as int),
            -0x0fff_ffff_ffff_ffff_ffff_ffff_ffff_ffff <= previous
                <= 0x0fff_ffff_ffff_ffff_ffff_ffff_ffff_ffff,
            res.len() == i,
            all_ok(res@),
            forall|j: int| 0 <= j < i ==> #[trigger] res[j] == scaled(shares@, by as int)[j],
    {
        proof {
            lemma_total_take(shares@, i as int);
        }
        prefix = prefix + shares[i] as i128;
        assert(-0x0fff_ffff_ffff_ffff_ffff_ffff_ffff_ffff <= by * prefix
            <= 0x0fff_ffff_ffff_ffff_ffff_ffff_ffff_ffff) by (nonlinear_arith)
            requires
                -1099511627776 <= by <= 1099511627776,
                -0x2_0000_0000_0000_0000_0000 <= prefix <= 0x2_0000_0000_0000_0000_0000,
        ;
        let product: i128 = by as i128 * prefix;
        let next: i128 = floor_div(product, WHOLE as i128);
        res.push(saturate(next - previous));
        previous = next;
    }
    assert(res@ =~= scaled(shares@, by as int));
    res
}

/// The shares of some tiles as shares of a split that holds just them.
fn split_shares(shares: &Vec<i64>) -> (res: Vec<i64>)
    requires
        all_ok(shares@),
        shares.len() <= MAX_CONTAINERS,
    ensures
        res@ == as_split_shares(shares@),
        all_ok(res@),
{
    let mut equal: Vec<i64> = Vec::new();
    for i in 0..shares.len()
        invariant
            equal.len() == i,
            forall|j: int| 0 <= j < i ==> #[trigger] equal[j] == 1,
    {
        equal.push(1);
    }
    assert(equal@ =~= equal_weights(shares@.len()));
    proof {
        lemma_total_equal_weights(shares@.len());
    }
    let own: i128 = sum_shares(shares);
    let weights: &Vec<i64> = if own > 0 {
        shares
    } else {
        &equal
    };
    let whole: i128 = sum_shares(weights);
    let mut res: Vec<i64> = Vec::new();
    let mut prefix: i128 = 0;
    let mut previous: i128 = 0;
    proof {
        assert(weights@.take(0) =~= Seq::<i64>::empty());
        assert(WHOLE * 0 == 0);
        if shares.len() > 0 {
            vstd::arithmetic::div_mod::lemma_div_basics(total(weights@));
        }
    }
    for i in 0..shares.len()
        invariant
            all_ok(weights@),
            shares.len() == weights.len(),
            shares.len() <= MAX_CONTAINERS,
            weights@ == (if total(shares@) > 0 {
                shares@
            } else {
                equal_weights(shares@.len())
            }),
            shares.len() > 0 ==> total(weights@) > 0,
            whole == total(weights@),
            whole <= 0x2_0000_0000_0000_0000_0000,
            prefix == total(weights@.take(i as int)),
            -(i * 1099511627776) <= prefix <= i * 1099511627776,
            shares.len() > 0 ==> previous == cut(WHOLE as int, weights@, i as int),
            -0x0fff_ffff_ffff_ffff_ffff_ffff_ffff_ffff <= previous
                <= 0x0fff_ffff_ffff_ffff_ffff_ffff_ffff_ffff,
            res.len() == i,
            all_ok(res@),
            forall|j: int| 0 <= j < i ==> #[trigger] res[j] == as_split_shares(shares@)[j],
    {
        proof {
            lemma_total_take(weights@, i as int);
        }
        prefix = prefix + weights[i] as i128;
        assert(-0x0fff_ffff_ffff_ffff_ffff_ffff_ffff_ffff <= WHOLE * prefix
            <= 0x0fff_ffff_ffff_ffff_ffff_ffff_ffff_ffff) by (nonlinear_arith)
            requires
                WHOLE == 1073741824,
                -0x2_0000_0000_0000_0000_0000 <= prefix <= 0x2_0000_0000_0000_0000_0000,
        ;
        let product: i128 = WHOLE as i128 * prefix;
        let next: i128 = floor_div(product, whole);
        proof {
            let p = product as int;
            let w = whole as int;
            assert(-0x0fff_ffff_ffff_ffff_ffff_ffff_ffff_ffff <= p / w
                <= 0x0fff_ffff_ffff_ffff_ffff_ffff_ffff_ffff) by (nonlinear_arith)
                requires
                    -0x0fff_ffff_ffff_ffff_ffff_ffff_ffff_ffff <= p
                        <= 0x0fff_ffff_ffff_ffff_ffff_ffff_ffff_ffff,
                    w >= 1,
            ;
        }
        res.push(saturate(next - previous));
        previous = next;
    }
    assert(res@ =~= as_split_shares(shares@));
    res
}

impl Layout {
    /// Gives a tile the share that `target` asks for, within what the minimums of
    /// its siblings leave.
    pub(crate) fn resize_tile(&mut self, id: usize, target: i64)
        requires
            old(self).wf(),
            valid(old(self)@, id),
        ensures
            final(self)@ == resized(old(self)@, id, target as int),
            final(self).wf(),
            same_links(old(self)@, final(self)@),
    {
        let ghost t = self@;
        proof {
            lemma_tile_siblings(t, id);
            resizing_keeps_links(t, id, target as int);
        }
        let siblings = self.tiling_siblings(id);
        if siblings.len() == 0 {
            self.set_tiling_size(id, WHOLE);
        } else {
            assert(all_ok(shares_of(t, siblings@))) by {
                assert forall|i: int| 0 <= i < siblings.len() implies share_ok(
                    #[trigger] shares_of(t, siblings@)[i] as int,
                ) by {
                    assert(valid(t, siblings@[i]));
                    assert(share_ok(t[siblings@[i] as int].data.tiling_size as int));
                }
            }
            let before = self.shares(&siblings);
            let own = self.tiling_size(id);
            assert(share_ok(t[id as int].data.tiling_size as int));
            let share = clamp_target(target, siblings.len());
            let after = spread_over(&before, share - own);
            self.set_tiling_size(id, share);
            self.set_shares(&siblings, &after);
        }
    }

    /// Replaces a split by its children.
    pub fn flatten_split_container(&mut self, split: usize)
        requires
            old(self).wf(),
            valid(old(self)@, split),
            kind(old(self)@, split) == ContainerKind::Split,
        ensures
            final(self)@ == flattened(old(self)@, split),
            final(self).wf(),
            same_kinds(old(self)@, final(self)@),
    {
        proof {
            reveal(flattened);
        }
        let ghost t = self@;
        match self.parent(split) {
            Some(p) => {
                proof {
                    lemma_parent_facts(t, split);
                    lemma_flattened(t, split);
                    flattening_keeps_tree(t, split);
                    lemma_children(t, split);
                    lemma_tiles(t, split);
                    lemma_position(t[p as int].children, split);
                    lemma_position(t[p as int].focus, split);
                }
                let children = self.children(split);
                let focus = self.focus_order(split);
                let kids = self.tiling_children(split);
                let share = self.tiling_size(split);
                assert(share_ok(t[split as int].data.tiling_size as int));
                assert(all_ok(shares_of(t, kids@))) by {
                    assert forall|i: int| 0 <= i < kids.len() implies share_ok(
                        #[trigger] shares_of(t, kids@)[i] as int,
                    ) by {
                        assert(valid(t, kids@[i]));
                        assert(share_ok(t[kids@[i] as int].data.tiling_size as int));
                    }
                }
                let old_shares = self.shares(&kids);
                let new_shares = scale_shares(&old_shares, share);
                let parent_children = self.children(p);
                let parent_focus = self.focus_order(p);
                let place = find(&parent_children, split);
                let focus_place = find(&parent_focus, split);
                let new_children = splice_items(&parent_children, place, &children);
                let new_focus = splice_items(&parent_focus, focus_place, &focus);
                self.set_shares(&kids, &new_shares);
                proof {
                    lemma_with_shares(t, kids@, new_shares@);
                    assert forall|k: int| 0 <= k < children.len() implies valid(
                        self@,
                        #[trigger] children[k],
                    ) by {
                        assert(valid(t, t[split as int].children[k]));
                    }
                }
                let ghost t1 = self@;
                self.set_parents(&children, Some(p));
                proof {
                    lemma_with_parents(t1, children@, Some(p));
                }
                self.set_children(p, new_children);
                self.set_focus(p, new_focus);
                self.set_children(split, Vec::new());
                self.set_focus(split, Vec::new());
                self.set_parent(split, None);
            },
            None => {},
        }
    }

    /// Takes a container out of the tree; its siblings share what it had.
    pub fn detach_container(&mut self, id: usize)
        requires
            old(self).wf(),
            valid(old(self)@, id),
        ensures
            final(self)@ == detached(old(self)@, id),
            final(self).wf(),
            same_kinds(old(self)@, final(self)@),
    {
        let ghost t = self@;
        proof {
            detaching_keeps_tree(t, id);
        }
        if let Some(p) = self.parent(id) {
            proof {
                lemma_parent_facts(t, id);
            }
            if self.kind(p) == ContainerKind::Split && self.child_count(p) == 1 {
                self.flatten_split_container(p);
            }
        }
        assert(self@ == only_child_freed(t, id));
        let ghost t1 = self@;
        proof {
            unlinking_keeps_tree(t1, id);
        }
        if let Some(p) = self.parent(id) {
            proof {
                lemma_parent_facts(t1, id);
            }
            let share = self.tiling_size(id);
            assert(share_ok(t1[id as int].data.tiling_size as int));
            let children = self.children(p);
            let focus = self.focus_order(p);
            let new_children = remove_item(&children, id);
            let new_focus = remove_item(&focus, id);
            self.set_children(p, new_children);
            self.set_focus(p, new_focus);
            self.set_parent(id, None);
            let ghost t3 = self@;
            assert(t3 == cut_out(t1, id));
            if self.is_tile(id) {
                proof {
                    crate::tree_laws::cutting_out_keeps_tree(t1, id);
                    lemma_tiles(t3, p);
                }
                let siblings = self.tiling_children(p);
                assert(all_ok(shares_of(t3, siblings@))) by {
                    assert forall|i: int| 0 <= i < siblings.len() implies share_ok(
                        #[trigger] shares_of(t3, siblings@)[i] as int,
                    ) by {
                        assert(valid(t3, siblings@[i]));
                        assert(share_ok(t3[siblings@[i] as int].data.tiling_size as int));
                    }
                }
                let before = self.shares(&siblings);
                let after = spread_over(&before, -share);
                self.set_shares(&siblings, &after);
            }
        }
    }

    /// Puts a container that has no children into another one. A tile takes an
    /// equal share from its new siblings.
    pub fn attach_container(&mut self, id: usize, parent: usize, index: usize)
        requires
            old(self).wf(),
            valid(old(self)@, id),
            valid(old(self)@, parent),
            id != parent,
            old(self)@[id as int].parent is None,
            old(self)@[id as int].children.len() == 0,
            kind(old(self)@, parent).holds(kind(old(self)@, id)),
            index <= old(self)@[parent as int].children.len(),
        ensures
            final(self)@ == attached(old(self)@, id, parent, index as int),
            final(self).wf(),
            same_kinds(old(self)@, final(self)@),
    {
        let ghost t = self@;
        proof {
            linking_keeps_tree(t, id, parent, index as int);
            attaching_keeps_tree(t, id, parent, index as int);
        }
        let children = self.children(parent);
        let mut focus = self.focus_order(parent);
        focus.push(id);
        let new_children = insert_item(&children, index, id);
        self.set_children(parent, new_children);
        self.set_focus(parent, focus);
        self.set_parent(id, Some(parent));
        let ghost t1 = self@;
        assert(t1 == linked(t, id, parent, index as int));
        if self.is_tile(id) {
            let siblings = self.tiling_siblings(id);
            self.set_tiling_size(id, 0);
            proof {
                lemma_tile_siblings(t1, id);
                lemma_same_links_wf(t1, self@);
            }
            let target: i64 = WHOLE / (siblings.len() as i64 + 1);
            self.resize_tile(id, target);
        }
    }

    /// Whether a container is the first in every focus order above it.
    pub fn has_focus(&self, id: usize) -> (res: bool)
        requires
            self.wf(),
            valid(self@, id),
        ensures
            res == has_focus(self@, id, self@.len()),
    {
        let mut fuel: usize = self.len();
        let mut current: usize = id;
        loop
            invariant
                self.wf(),
                valid(self@, current),
                has_focus(self@, id, self@.len()) == has_focus(self@, current, fuel as nat),
            decreases fuel,
        {
            match self.parent(current) {
                Some(p) => {
                    proof {
                        lemma_parent_facts(self@, current);
                    }
                    if fuel == 0 {
                        return false;
                    }
                    let focus = self.focus_order(p);
                    if focus.len() == 0 || focus[0] != current {
                        return false;
                    }
                    current = p;
                    fuel = fuel - 1;
                },
                None => {
                    return true;
                },
            }
        }
    }

    /// Puts a container, and all it stands in, first in the focus orders up to the
    /// top.
    pub fn set_focused_descendant(&mut self, id: usize)
        requires
            old(self).wf(),
            valid(old(self)@, id),
        ensures
            final(self)@ == focused(old(self)@, id, old(self)@.len()),
            final(self).wf(),
            same_kinds(old(self)@, final(self)@),
    {
        let ghost t = self@;
        let mut fuel: usize = self.len();
        let mut current: usize = id;
        let mut done: bool = false;
        proof {
            focusing_keeps_tree(t, id, t.len());
        }
        while !done
            invariant
                self.wf(),
                self@.len() == t.len(),
                valid(self@, current),
                same_kinds(t, self@),
                !done ==> focused(t, id, t.len()) == focused(self@, current, fuel as nat),
                done ==> focused(t, id, t.len()) == self@,
            decreases
                fuel,
                (if done {
                    0int
                } else {
                    1int
                }),
        {
            match self.parent(current) {
                Some(p) if fuel > 0 => {
                    proof {
                        lemma_parent_facts(self@, current);
                        focusing_keeps_tree(self@, current, 1);
                    }
                    let focus = self.focus_order(p);
                    let rest = remove_item(&focus, current);
                    let new_focus = insert_item(&rest, 0, current);
                    let ghost before = self@;
                    self.set_focus(p, new_focus);
                    assert(focused(before, current, 1) == focused(self@, p, 0));
                    assert(focused(self@, p, 0) == self@);
                    current = p;
                    fuel = fuel - 1;
                },
                _ => {
                    done = true;
                },
            }
        }
    }

    /// Moves a container without children to a place under `parent`. A container
    /// that had the focus keeps it.
    pub fn move_container_within_tree(&mut self, id: usize, parent: usize, index: usize)
        requires
            old(self).wf(),
            valid(old(self)@, id),
            valid(old(self)@, parent),
            id != parent,
            old(self)@[id as int].parent is Some,
            old(self)@[id as int].children.len() == 0,
            kind(old(self)@, parent).holds(kind(old(self)@, id)),
        ensures
            final(self)@ == moved(old(self)@, id, parent, index as int),
            final(self).wf(),
            same_kinds(old(self)@, final(self)@),
            final(self)@[id as int].parent == Some(parent),
    {
        proof {
            reveal(moved);
        }
        let ghost t = self@;
        proof {
            moving_keeps_tree(t, id, parent, index as int);
            detaching_keeps_tree(t, id);
        }
        let current = self.parent(id);
        if current == Some(parent) {
            let children = self.children(parent);
            let new_children = shift_item(&children, id, index);
            self.set_children(parent, new_children);
        } else {
            let keeps_focus = self.has_focus(id);
            self.detach_container(id);
            let count = self.child_count(parent);
            let place = if index <= count {
                index
            } else {
                count
            };
            self.attach_container(id, parent, place);
            if keeps_focus {
                self.set_focused_descendant(id);
            }
        }
    }

    /// Wraps some tiles of a container in a split that is not yet in the tree.
    pub fn wrap_in_split_container(&mut self, split: usize, parent: usize, ids: &Vec<usize>)
        requires
            old(self).wf(),
            valid(old(self)@, split),
            valid(old(self)@, parent),
            kind(old(self)@, split) == ContainerKind::Split,
            kind(old(self)@, parent).is_direction(),
            old(self)@[split as int].parent is None,
            old(self)@[split as int].children.len() == 0,
            split != parent,
            are_tiles_of(old(self)@, ids@, parent),
        ensures
            final(self)@ == wrapped(old(self)@, split, parent, ids@),
            final(self).wf(),
            same_kinds(old(self)@, final(self)@),
    {
        proof {
            reveal(wrapped);
        }
        let ghost t = self@;
        proof {
            wrapping_keeps_tree(t, split, parent, ids@);
            lemma_tiles(t, parent);
            assert forall|k: int| 0 <= k < ids.len() implies valid(t, #[trigger] ids[k]) by {
                assert(tiles(t, parent).contains(ids@[k]));
            }
            assert forall|k: int| 0 <= k < ids@.len() implies (#[trigger] ids@[k]) < t.len() by {
                assert(valid(t, ids[k]));
            }
            crate::lists::lemma_distinct_bounded(ids@, t.len() as int);
        }
        assert(all_ok(shares_of(t, ids@))) by {
            assert forall|i: int| 0 <= i < ids.len() implies share_ok(
                #[trigger] shares_of(t, ids@)[i] as int,
            ) by {
                assert(valid(t, ids[i]));
                assert(share_ok(t[ids@[i] as int].data.tiling_size as int));
            }
        }
        let old_shares = self.shares(ids);
        let new_shares = split_shares(&old_shares);
        let whole = saturate(sum_shares(&old_shares));
        let children = self.children(parent);
        let focus = self.focus_order(parent);
        let place = first_place_of(&children, ids);
        let with_split = insert_item(&children, place, split);
        let new_children = filter_items(&with_split, ids, false);
        let focus_place = first_place_of(&focus, ids);
        let focus_with_split = insert_item(&focus, focus_place, split);
        let new_focus = filter_items(&focus_with_split, ids, false);
        let split_focus = filter_items(&focus, ids, true);
        self.set_shares(ids, &new_shares);
        proof {
            lemma_with_shares(t, ids@, new_shares@);
            assert forall|k: int| 0 <= k < ids.len() implies valid(self@, #[trigger] ids[k]) by {
                assert(tiles(t, parent).contains(ids@[k]));
            }
        }
        let ghost t1 = self@;
        self.set_parents(ids, Some(split));
        proof {
            lemma_with_parents(t1, ids@, Some(split));
        }
        self.set_children(parent, new_children);
        self.set_focus(parent, new_focus);
        let own = ids.clone();
        assert(own@ =~= ids@);
        self.set_children(split, own);
        self.set_focus(split, split_focus);
        self.set_tiling_size(split, whole);
        self.set_parent(split, Some(parent));
    }
}

} // verus!
