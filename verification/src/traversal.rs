//! Walks through the container tree.

use vstd::prelude::*;

use crate::geometry::{Direction, TilingDirection};
use crate::layout::Layout;
use crate::lists::position;
use crate::tree::{is_tile, kind, tiles_in, valid, wf, ContainerKind, Tree};
use crate::tree_laws::{lemma_children, lemma_parent_facts, lemma_tiles_in};

verus! {

/// The containers that a container stands in, from its parent upwards.
pub open spec fn ancestors_fuel(t: Tree, id: usize, fuel: nat) -> Seq<usize>
    decreases fuel,
{
    match t[id as int].parent {
        Some(p) if fuel > 0 => seq![p] + ancestors_fuel(t, p, (fuel - 1) as nat),
        _ => Seq::empty(),
    }
}

/// The containers that a container stands in, from its parent upwards. Their number
/// bounds the walk.
pub open spec fn ancestors(t: Tree, id: usize) -> Seq<usize> {
    ancestors_fuel(t, id, t.len())
}

/// The nearest container of a kind, the container itself counted.
pub open spec fn enclosing_fuel(
    t: Tree,
    id: usize,
    wanted: ContainerKind,
    fuel: nat,
) -> Option<usize>
    decreases fuel,
{
    if kind(t, id) == wanted {
        Some(id)
    } else {
        match t[id as int].parent {
            Some(p) if fuel > 0 => enclosing_fuel(t, p, wanted, (fuel - 1) as nat),
            _ => None,
        }
    }
}

/// The workspace that a container is on.
pub open spec fn workspace_of(t: Tree, id: usize) -> Option<usize> {
    enclosing_fuel(t, id, ContainerKind::Workspace, t.len())
}

/// The monitor that a container is on.
pub open spec fn monitor_of(t: Tree, id: usize) -> Option<usize> {
    enclosing_fuel(t, id, ContainerKind::Monitor, t.len())
}

/// Some containers, each followed by all that stands in it.
pub open spec fn descend(t: Tree, ids: Seq<usize>, fuel: nat) -> Seq<usize>
    decreases fuel, ids.len(),
{
    if ids.len() == 0 || fuel == 0 {
        Seq::empty()
    } else {
        descend(t, ids.drop_last(), fuel).push(ids.last()) + descend(
            t,
            t[ids.last() as int].children,
            (fuel - 1) as nat,
        )
    }
}

/// All that stands in a container, at any depth. The number of containers bounds
/// the depth.
pub open spec fn descendants(t: Tree, id: usize) -> Seq<usize> {
    descend(t, t[id as int].children, t.len())
}

/// Those of some containers that are of a kind, in the same order.
pub open spec fn of_kind(t: Tree, ids: Seq<usize>, wanted: ContainerKind) -> Seq<usize>
    decreases ids.len(),
{
    if ids.len() == 0 {
        ids
    } else if kind(t, ids.last()) == wanted {
        of_kind(t, ids.drop_last(), wanted).push(ids.last())
    } else {
        of_kind(t, ids.drop_last(), wanted)
    }
}

/// The first tile of some containers, counted from the front.
pub open spec fn first_tile(t: Tree, ids: Seq<usize>) -> Option<usize> {
    let found = tiles_in(t, ids);
    if found.len() == 0 {
        None
    } else {
        Some(found[0])
    }
}

/// The last tile of some containers.
pub open spec fn last_tile(t: Tree, ids: Seq<usize>) -> Option<usize> {
    let found = tiles_in(t, ids);
    if found.len() == 0 {
        None
    } else {
        Some(found.last())
    }
}

/// The nearest tile beside a container: before it for up and left, after it for down
/// and right.
pub open spec fn sibling_in_direction(t: Tree, id: usize, direction: Direction) -> Option<usize> {
    match t[id as int].parent {
        Some(p) => {
            let all = t[p as int].children;
            let place = position(all, id);
            if direction.is_backward() {
                last_tile(t, all.take(place))
            } else {
                first_tile(t, all.skip(place + 1))
            }
        },
        None => None,
    }
}

/// The tile of a container that is met first when coming from the far side: along
/// the axis the outermost one, across it the one focused last.
pub open spec fn child_in_direction(t: Tree, id: usize, direction: Direction) -> Option<usize> {
    if t[id as int].data.tiling_direction != TilingDirection::from_direction(direction) {
        first_tile(t, t[id as int].focus)
    } else if direction.is_backward() {
        first_tile(t, t[id as int].children)
    } else {
        last_tile(t, t[id as int].children)
    }
}

/// The window that is met first inside a container.
pub open spec fn descendant_in_direction(
    t: Tree,
    id: usize,
    direction: Direction,
    fuel: nat,
) -> Option<usize>
    decreases fuel,
{
    match child_in_direction(t, id, direction) {
        Some(child) => if kind(t, child) == ContainerKind::Split {
            if fuel == 0 {
                None
            } else {
                descendant_in_direction(t, child, direction, (fuel - 1) as nat)
            }
        } else {
            Some(child)
        },
        None => None,
    }
}

pub proof fn lemma_ancestors_valid(t: Tree, id: usize, fuel: nat)
    requires
        wf(t),
        valid(t, id),
    ensures
        forall|k: int|
            0 <= k < ancestors_fuel(t, id, fuel).len() ==> valid(
                t,
                #[trigger] ancestors_fuel(t, id, fuel)[k],
            ),
        ancestors_fuel(t, id, fuel).len() <= fuel,
    decreases fuel,
{
    if t[id as int].parent is Some && fuel > 0 {
        let p = t[id as int].parent->0;
        lemma_parent_facts(t, id);
        lemma_ancestors_valid(t, p, (fuel - 1) as nat);
        assert forall|k: int| 0 <= k < ancestors_fuel(t, id, fuel).len() implies valid(
            t,
            #[trigger] ancestors_fuel(t, id, fuel)[k],
        ) by {
            if k > 0 {
                assert(ancestors_fuel(t, id, fuel)[k] == ancestors_fuel(t, p, (fuel - 1) as nat)[k
                    - 1]);
            }
        }
    }
}

pub proof fn lemma_enclosing(t: Tree, id: usize, wanted: ContainerKind, fuel: nat)
    requires
        wf(t),
        valid(t, id),
    ensures
        enclosing_fuel(t, id, wanted, fuel) matches Some(found) ==> valid(t, found) && kind(
            t,
            found,
        ) == wanted,
    decreases fuel,
{
    if kind(t, id) != wanted && t[id as int].parent is Some && fuel > 0 {
        lemma_parent_facts(t, id);
        lemma_enclosing(t, t[id as int].parent->0, wanted, (fuel - 1) as nat);
    }
}

pub proof fn lemma_descend_valid(t: Tree, ids: Seq<usize>, fuel: nat)
    requires
        wf(t),
        forall|k: int| 0 <= k < ids.len() ==> valid(t, #[trigger] ids[k]),
    ensures
        forall|k: int|
            0 <= k < descend(t, ids, fuel).len() ==> valid(t, #[trigger] descend(t, ids, fuel)[k]),
    decreases fuel, ids.len(),
{
    if ids.len() > 0 && fuel > 0 {
        let front = ids.drop_last();
        assert forall|k: int| 0 <= k < front.len() implies valid(t, #[trigger] front[k]) by {
            assert(front[k] == ids[k]);
        }
        lemma_descend_valid(t, front, fuel);
        assert(valid(t, ids[ids.len() - 1]));
        lemma_children(t, ids.last());
        let inner = t[ids.last() as int].children;
        assert forall|k: int| 0 <= k < inner.len() implies valid(t, #[trigger] inner[k]) by {
            assert(valid(t, t[ids.last() as int].children[k]));
        }
        lemma_descend_valid(t, inner, (fuel - 1) as nat);
        let a = descend(t, front, fuel).push(ids.last());
        let b = descend(t, inner, (fuel - 1) as nat);
        assert forall|k: int| 0 <= k < descend(t, ids, fuel).len() implies valid(
            t,
            #[trigger] descend(t, ids, fuel)[k],
        ) by {
            if k < a.len() - 1 {
                assert(descend(t, ids, fuel)[k] == descend(t, front, fuel)[k]);
            } else if k >= a.len() {
                assert(descend(t, ids, fuel)[k] == b[k - a.len()]);
            }
        }
    }
}

pub proof fn lemma_of_kind(t: Tree, ids: Seq<usize>, wanted: ContainerKind)
    requires
        forall|k: int| 0 <= k < ids.len() ==> valid(t, #[trigger] ids[k]),
    ensures
        forall|k: int|
            0 <= k < of_kind(t, ids, wanted).len() ==> valid(
                t,
                #[trigger] of_kind(t, ids, wanted)[k],
            ) && kind(t, of_kind(t, ids, wanted)[k]) == wanted,
    decreases ids.len(),
{
    if ids.len() > 0 {
        let front = ids.drop_last();
        assert forall|k: int| 0 <= k < front.len() implies valid(t, #[trigger] front[k]) by {
            assert(front[k] == ids[k]);
        }
        lemma_of_kind(t, front, wanted);
        assert(valid(t, ids[ids.len() - 1]));
        assert forall|k: int| 0 <= k < of_kind(t, ids, wanted).len() implies valid(
            t,
            #[trigger] of_kind(t, ids, wanted)[k],
        ) && kind(t, of_kind(t, ids, wanted)[k]) == wanted by {
            if k < of_kind(t, front, wanted).len() {
                assert(of_kind(t, ids, wanted)[k] == of_kind(t, front, wanted)[k]);
            }
        }
    }
}

pub proof fn lemma_sibling_in_direction(t: Tree, id: usize, direction: Direction)
    requires
        wf(t),
        valid(t, id),
    ensures
        sibling_in_direction(t, id, direction) matches Some(s) ==> valid(t, s) && is_tile(t, s)
            && t[s as int].parent == t[id as int].parent && s != id,
{
    if let Some(s) = sibling_in_direction(t, id, direction) {
        let p = t[id as int].parent->0;
        lemma_parent_facts(t, id);
        lemma_children(t, p);
        let all = t[p as int].children;
        let place = position(all, id);
        crate::lists::lemma_position(all, id);
        let part = if direction.is_backward() {
            all.take(place)
        } else {
            all.skip(place + 1)
        };
        lemma_tiles_in(t, part);
        assert(tiles_in(t, part).contains(s));
        let k = choose|k: int| 0 <= k < part.len() && part[k] == s;
        let j = if direction.is_backward() {
            k
        } else {
            k + place + 1
        };
        assert(all[j] == s);
        assert(t[p as int].children.no_duplicates());
        assert(valid(t, t[p as int].children[j]));
    }
}

proof fn lemma_first_tile(t: Tree, id: usize, ids: Seq<usize>)
    requires
        wf(t),
        valid(t, id),
        forall|y: usize| #[trigger] ids.contains(y) ==> t[id as int].children.contains(y),
    ensures
        first_tile(t, ids) matches Some(s) ==> valid(t, s) && is_tile(t, s) && t[s as int].parent
            == Some(id),
        last_tile(t, ids) matches Some(s) ==> valid(t, s) && is_tile(t, s) && t[s as int].parent
            == Some(id),
{
    lemma_tiles_in(t, ids);
    let found = tiles_in(t, ids);
    let all = t[id as int].children;
    if found.len() > 0 {
        assert(found.contains(found[0]));
        assert(found.contains(found.last()));
        assert(ids.contains(found[0]));
        assert(ids.contains(found.last()));
        let j = choose|j: int| 0 <= j < all.len() && all[j] == found[0];
        assert(valid(t, t[id as int].children[j]));
        let k = choose|k: int| 0 <= k < all.len() && all[k] == found.last();
        assert(valid(t, t[id as int].children[k]));
    }
}

pub proof fn lemma_child_in_direction(t: Tree, id: usize, direction: Direction)
    requires
        wf(t),
        valid(t, id),
    ensures
        child_in_direction(t, id, direction) matches Some(s) ==> valid(t, s) && is_tile(t, s)
            && t[s as int].parent == Some(id),
{
    assert forall|y: usize| #[trigger] t[id as int].focus.contains(y) implies t[id as int]
        .children.contains(y) by {}
    lemma_first_tile(t, id, t[id as int].focus);
    lemma_first_tile(t, id, t[id as int].children);
}

pub proof fn lemma_descendant_in_direction(t: Tree, id: usize, direction: Direction, fuel: nat)
    requires
        wf(t),
        valid(t, id),
    ensures
        descendant_in_direction(t, id, direction, fuel) matches Some(s) ==> valid(t, s) && kind(
            t,
            s,
        ) == ContainerKind::TilingWindow && t[s as int].parent is Some,
    decreases fuel,
{
    lemma_child_in_direction(t, id, direction);
    if let Some(child) = child_in_direction(t, id, direction) {
        if kind(t, child) == ContainerKind::Split && fuel > 0 {
            lemma_descendant_in_direction(t, child, direction, (fuel - 1) as nat);
        }
    }
}

impl Layout {
    /// The containers that a container stands in, from its parent upwards.
    pub fn ancestors(&self, id: usize) -> (res: Vec<usize>)
        requires
            self.wf(),
            valid(self@, id),
        ensures
            res@ == ancestors(self@, id),
            forall|k: int| 0 <= k < res.len() ==> valid(self@, #[trigger] res[k]),
    {
        let mut res: Vec<usize> = Vec::new();
        let mut current: usize = id;
        let mut fuel: usize = self.len();
        proof {
            lemma_ancestors_valid(self@, id, self@.len());
            assert(res@ + ancestors(self@, id) =~= ancestors(self@, id));
        }
        while fuel > 0
            invariant
                self.wf(),
                valid(self@, current),
                ancestors(self@, id) == res@ + ancestors_fuel(self@, current, fuel as nat),
                forall|k: int|
                    0 <= k < ancestors(self@, id).len() ==> valid(
                        self@,
                        #[trigger] ancestors(self@, id)[k],
                    ),
            decreases fuel,
        {
            match self.parent(current) {
                Some(p) => {
                    proof {
                        lemma_parent_facts(self@, current);
                        let rest = ancestors_fuel(self@, p, (fuel - 1) as nat);
                        assert(res@ + (seq![p] + rest) =~= res@.push(p) + rest);
                    }
                    res.push(p);
                    current = p;
                    fuel = fuel - 1;
                },
                None => {
                    assert(res@ + Seq::<usize>::empty() =~= res@);
                    return res;
                },
            }
        }
        assert(res@ + ancestors_fuel(self@, current, 0) =~= res@);
        res
    }

    /// The nearest container of a kind, the container itself counted.
    pub fn enclosing(&self, id: usize, wanted: ContainerKind) -> (res: Option<usize>)
        requires
            self.wf(),
            valid(self@, id),
        ensures
            res == enclosing_fuel(self@, id, wanted, self@.len()),
            res matches Some(found) ==> valid(self@, found) && kind(self@, found) == wanted,
    {
        let mut current: usize = id;
        let mut fuel: usize = self.len();
        loop
            invariant
                self.wf(),
                valid(self@, current),
                enclosing_fuel(self@, id, wanted, self@.len()) == enclosing_fuel(
                    self@,
                    current,
                    wanted,
                    fuel as nat,
                ),
            decreases fuel,
        {
            if self.kind(current) == wanted {
                return Some(current);
            }
            match self.parent(current) {
                Some(p) if fuel > 0 => {
                    proof {
                        lemma_parent_facts(self@, current);
                    }
                    current = p;
                    fuel = fuel - 1;
                },
                _ => {
                    return None;
                },
            }
        }
    }

    /// The workspace that a container is on.
    pub fn workspace(&self, id: usize) -> (res: Option<usize>)
        requires
            self.wf(),
            valid(self@, id),
        ensures
            res == workspace_of(self@, id),
            res matches Some(found) ==> valid(self@, found) && kind(self@, found)
                == ContainerKind::Workspace,
    {
        self.enclosing(id, ContainerKind::Workspace)
    }

    /// The monitor that a container is on.
    pub fn monitor(&self, id: usize) -> (res: Option<usize>)
        requires
            self.wf(),
            valid(self@, id),
        ensures
            res == monitor_of(self@, id),
            res matches Some(found) ==> valid(self@, found) && kind(self@, found)
                == ContainerKind::Monitor,
    {
        self.enclosing(id, ContainerKind::Monitor)
    }

    fn collect(&self, ids: &Vec<usize>, fuel: usize, found: &mut Vec<usize>)
        requires
            self.wf(),
            forall|k: int| 0 <= k < ids.len() ==> valid(self@, #[trigger] ids[k]),
        ensures
            final(found)@ == old(found)@ + descend(self@, ids@, fuel as nat),
        decreases fuel,
    {
        let ghost start = found@;
        if fuel == 0 {
            assert(start + Seq::<usize>::empty() =~= start);
            return;
        }
        assert(ids@.take(0) =~= Seq::<usize>::empty());
        assert(start + Seq::<usize>::empty() =~= start);
        for i in 0..ids.len()
            invariant
                self.wf(),
                fuel > 0,
                forall|k: int| 0 <= k < ids.len() ==> valid(self@, #[trigger] ids[k]),
                found@ == start + descend(self@, ids@.take(i as int), fuel as nat),
        {
            assert(valid(self@, ids[i as int]));
            let id = ids[i];
            let ghost before = found@;
            proof {
                lemma_children(self@, id);
            }
            found.push(id);
            let inner = self.children(id);
            assert forall|k: int| 0 <= k < inner.len() implies valid(self@, #[trigger] inner[k]) by {
                assert(valid(self@, self@[id as int].children[k]));
            }
            self.collect(&inner, fuel - 1, found);
            proof {
                let here = ids@.take(i + 1);
                assert(here.drop_last() =~= ids@.take(i as int));
                let a = descend(self@, ids@.take(i as int), fuel as nat);
                let b = descend(self@, inner@, (fuel - 1) as nat);
                assert((start + a).push(id) + b =~= start + (a.push(id) + b));
            }
        }
        assert(ids@.take(ids.len() as int) =~= ids@);
    }

    /// All that stands in a container, at any depth.
    pub fn descendants(&self, id: usize) -> (res: Vec<usize>)
        requires
            self.wf(),
            valid(self@, id),
        ensures
            res@ == descendants(self@, id),
            forall|k: int| 0 <= k < res.len() ==> valid(self@, #[trigger] res[k]),
    {
        let mut res: Vec<usize> = Vec::new();
        let ids = self.children(id);
        proof {
            lemma_children(self@, id);
            assert forall|k: int| 0 <= k < ids.len() implies valid(self@, #[trigger] ids[k]) by {
                assert(valid(self@, self@[id as int].children[k]));
            }
            lemma_descend_valid(self@, ids@, self@.len());
        }
        self.collect(&ids, self.len(), &mut res);
        assert(res@ =~= descendants(self@, id));
        res
    }

    /// Those of some containers that are of a kind.
    pub fn filter_kind(&self, ids: &Vec<usize>, wanted: ContainerKind) -> (res: Vec<usize>)
        requires
            forall|k: int| 0 <= k < ids.len() ==> valid(self@, #[trigger] ids[k]),
        ensures
            res@ == of_kind(self@, ids@, wanted),
            forall|k: int|
                0 <= k < res.len() ==> valid(self@, #[trigger] res[k]) && kind(self@, res[k])
                    == wanted,
    {
        let mut res: Vec<usize> = Vec::new();
        assert(ids@.take(0) =~= Seq::<usize>::empty());
        proof {
            lemma_of_kind(self@, ids@, wanted);
        }
        for i in 0..ids.len()
            invariant
                forall|k: int| 0 <= k < ids.len() ==> valid(self@, #[trigger] ids[k]),
                res@ == of_kind(self@, ids@.take(i as int), wanted),
        {
            assert(ids@.take(i + 1).drop_last() =~= ids@.take(i as int));
            assert(valid(self@, ids[i as int]));
            if self.kind(ids[i]) == wanted {
                res.push(ids[i]);
            }
        }
        assert(ids@.take(ids.len() as int) =~= ids@);
        res
    }

    fn first_tile_of(&self, ids: &Vec<usize>) -> (res: Option<usize>)
        requires
            forall|k: int| 0 <= k < ids.len() ==> valid(self@, #[trigger] ids[k]),
        ensures
            res == first_tile(self@, ids@),
    {
        let found = self.tiles_among(ids);
        if found.len() == 0 {
            None
        } else {
            Some(found[0])
        }
    }

    fn last_tile_of(&self, ids: &Vec<usize>) -> (res: Option<usize>)
        requires
            forall|k: int| 0 <= k < ids.len() ==> valid(self@, #[trigger] ids[k]),
        ensures
            res == last_tile(self@, ids@),
    {
        let found = self.tiles_among(ids);
        if found.len() == 0 {
            None
        } else {
            Some(found[found.len() - 1])
        }
    }

    /// The nearest tile beside a container in a direction.
    pub fn tiling_sibling_in_direction(
        &self,
        id: usize,
        direction: Direction,
    ) -> (res: Option<usize>)
        requires
            self.wf(),
            valid(self@, id),
        ensures
            res == sibling_in_direction(self@, id, direction),
    {
        let p = match self.parent(id) {
            Some(p) => p,
            None => {
                return None;
            },
        };
        proof {
            lemma_parent_facts(self@, id);
            lemma_children(self@, p);
        }
        let all = self.children(p);
        let place = self.index(id);
        let mut part: Vec<usize> = Vec::new();
        if direction.is_backward() {
            for k in 0..place
                invariant
                    place < all.len(),
                    part@ == all@.take(k as int),
            {
                part.push(all[k]);
            }
            assert forall|k: int| 0 <= k < part.len() implies valid(self@, #[trigger] part[k]) by {
                assert(valid(self@, self@[p as int].children[k]));
            }
            self.last_tile_of(&part)
        } else {
            for k in place + 1..all.len()
                invariant
                    place < all.len(),
                    part@ == all@.subrange(place + 1, k as int),
            {
                part.push(all[k]);
            }
            assert(part@ =~= all@.skip(place + 1));
            assert forall|k: int| 0 <= k < part.len() implies valid(self@, #[trigger] part[k]) by {
                assert(valid(self@, self@[p as int].children[k + place + 1]));
            }
            self.first_tile_of(&part)
        }
    }

    fn tile_in_direction(&self, id: usize, direction: Direction) -> (res: Option<usize>)
        requires
            self.wf(),
            valid(self@, id),
        ensures
            res == child_in_direction(self@, id, direction),
    {
        proof {
            lemma_children(self@, id);
        }
        let children = self.children(id);
        let focus = self.focus_order(id);
        assert forall|k: int| 0 <= k < children.len() implies valid(
            self@,
            #[trigger] children[k],
        ) by {
            assert(valid(self@, self@[id as int].children[k]));
        }
        assert forall|k: int| 0 <= k < focus.len() implies valid(self@, #[trigger] focus[k]) by {
            assert(valid(self@, self@[id as int].focus[k]));
        }
        if self.tiling_direction(id) != TilingDirection::from_direction(direction) {
            self.first_tile_of(&focus)
        } else if direction.is_backward() {
            self.first_tile_of(&children)
        } else {
            self.last_tile_of(&children)
        }
    }

    /// The window that is met first inside a container.
    pub fn descendant_in_direction(&self, id: usize, direction: Direction) -> (res: Option<usize>)
        requires
            self.wf(),
            valid(self@, id),
        ensures
            res == descendant_in_direction(self@, id, direction, self@.len()),
    {
        let mut current: usize = id;
        let mut fuel: usize = self.len();
        loop
            invariant
                self.wf(),
                valid(self@, current),
                descendant_in_direction(self@, id, direction, self@.len())
                    == descendant_in_direction(self@, current, direction, fuel as nat),
            decreases fuel,
        {
            proof {
                lemma_child_in_direction(self@, current, direction);
            }
            match self.tile_in_direction(current, direction) {
                Some(child) => {
                    if self.kind(child) == ContainerKind::Split {
                        if fuel == 0 {
                            return None;
                        }
                        current = child;
                        fuel = fuel - 1;
                    } else {
                        return Some(child);
                    }
                },
                None => {
                    return None;
                },
            }
        }
    }
}

} // verus!
