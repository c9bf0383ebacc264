//! The container tree.

use vstd::prelude::*;

use crate::geometry::{Rect, RectDelta, TilingDirection};
use crate::lists::{contains, find, lemma_position, position, remove_item};
use crate::shares::{share_ok, MAX_CONTAINERS, WHOLE};
use crate::tree::{
    is_tile, kind, share_of, shares_of, tile_siblings, tiles, tiles_in, valid, wf, with_children,
    with_data, with_direction, with_focus, with_parent, with_parents, with_share, with_shares,
    with_unstack, with_window, ContainerKind, Gaps, NodeData, NodeView, Tree, WindowProps,
    WindowState,
};
use crate::tree_laws::{lemma_children, lemma_parent_facts};

verus! {

#[derive(Debug)]
struct Node {
    parent: Option<usize>,
    children: Vec<usize>,
    focus: Vec<usize>,
    unstack: Vec<(usize, i64)>,
    data: NodeData,
}

impl Node {
    spec fn node(self) -> NodeView {
        NodeView {
            parent: self.parent,
            children: self.children@,
            focus: self.focus@,
            unstack: self.unstack@,
            data: self.data,
        }
    }
}

/// All containers, by number.
#[derive(Debug)]
pub struct Layout {
    nodes: Vec<Node>,
}

impl View for Layout {
    type V = Tree;

    closed spec fn view(&self) -> Tree {
        Seq::new(self.nodes@.len(), |i: int| self.nodes@[i].node())
    }
}

/// Window properties before anything is known of the window.
pub open spec fn blank_window(state: WindowState) -> WindowProps {
    WindowProps {
        state,
        frame: Rect { left: 0, top: 0, right: 0, bottom: 0 },
        floating_placement: Rect { left: 0, top: 0, right: 0, bottom: 0 },
        minimum_tiling_size: None,
        border_delta: RectDelta { left: 0, top: 0, right: 0, bottom: 0 },
        total_border_delta: RectDelta { left: 0, top: 0, right: 0, bottom: 0 },
        is_resizable: true,
        is_maximized: false,
        has_pending_dpi_adjustment: false,
        has_insertion_target: false,
        active_drag: None,
    }
}

pub open spec fn blank_data(kind: ContainerKind) -> NodeData {
    NodeData {
        kind,
        tiling_direction: TilingDirection::Horizontal,
        tiling_size: WHOLE,
        rect: Rect { left: 0, top: 0, right: 0, bottom: 0 },
        inner_gaps: Gaps { x: 0, y: 0 },
        window: blank_window(WindowState::Tiling),
    }
}

/// A container that is linked to nothing.
pub open spec fn lone(data: NodeData) -> NodeView {
    NodeView {
        parent: None,
        children: Seq::empty(),
        focus: Seq::empty(),
        unstack: Seq::empty(),
        data,
    }
}

/// The window properties of a window that was just found.
pub fn new_window_props(state: WindowState) -> (res: WindowProps)
    ensures
        res == blank_window(state),
{
    WindowProps {
        state,
        frame: Rect { left: 0, top: 0, right: 0, bottom: 0 },
        floating_placement: Rect { left: 0, top: 0, right: 0, bottom: 0 },
        minimum_tiling_size: None,
        border_delta: RectDelta { left: 0, top: 0, right: 0, bottom: 0 },
        total_border_delta: RectDelta { left: 0, top: 0, right: 0, bottom: 0 },
        is_resizable: true,
        is_maximized: false,
        has_pending_dpi_adjustment: false,
        has_insertion_target: false,
        active_drag: None,
    }
}

/// The plain part of a new container.
pub fn new_node_data(kind: ContainerKind) -> (res: NodeData)
    ensures
        res == blank_data(kind),
{
    NodeData {
        kind,
        tiling_direction: TilingDirection::Horizontal,
        tiling_size: WHOLE,
        rect: Rect { left: 0, top: 0, right: 0, bottom: 0 },
        inner_gaps: Gaps { x: 0, y: 0 },
        window: new_window_props(WindowState::Tiling),
    }
}

impl Layout {
    /// Whether the containers form well-formed trees.
    pub open spec fn wf(&self) -> bool {
        wf(self@)
    }

    /// A layout with nothing but the root, container number 0.
    pub fn new() -> (res: Layout)
        ensures
            res@ == seq![lone(blank_data(ContainerKind::Root))],
            res.wf(),
    {
        let mut res = Layout { nodes: Vec::new() };
        assert(res@ =~= Seq::<NodeView>::empty());
        proof {
            let t = Seq::<NodeView>::empty();
            assert(crate::tree::ranked(t, Seq::<int>::empty()));
            assert(wf(t));
        }
        let root = res.add_container(new_node_data(ContainerKind::Root));
        assert(res@ =~= seq![lone(blank_data(ContainerKind::Root))]);
        res
    }

    /// The number of containers, those that have left the tree counted.
    pub fn len(&self) -> (res: usize)
        ensures
            res == self@.len(),
    {
        self.nodes.len()
    }

    /// Adds a container that is linked to nothing yet and returns its number.
    pub fn add_container(&mut self, data: NodeData) -> (id: usize)
        requires
            old(self).wf(),
            old(self)@.len() < MAX_CONTAINERS,
            share_ok(data.tiling_size as int),
        ensures
            id == old(self)@.len(),
            final(self)@ == old(self)@.push(lone(data)),
            final(self).wf(),
    {
        let id: usize = self.nodes.len();
        let ghost t = self@;
        self.nodes.push(
            Node {
                parent: None,
                children: Vec::new(),
                focus: Vec::new(),
                unstack: Vec::new(),
                data,
            },
        );
        assert(self@ =~= t.push(lone(data)));
        assert(self.nodes.len() == t.len() + 1);
        proof {
            lemma_push_wf(t, data);
        }
        id
    }

    /// The plain part of a container.
    pub fn data(&self, id: usize) -> (res: NodeData)
        requires
            valid(self@, id),
        ensures
            res == self@[id as int].data,
    {
        self.nodes[id].data
    }

    pub fn kind(&self, id: usize) -> (res: ContainerKind)
        requires
            valid(self@, id),
        ensures
            res == kind(self@, id),
    {
        self.nodes[id].data.kind
    }

    pub fn is_tile(&self, id: usize) -> (res: bool)
        requires
            valid(self@, id),
        ensures
            res == is_tile(self@, id),
    {
        let kind = self.nodes[id].data.kind;
        kind == ContainerKind::Split || kind == ContainerKind::TilingWindow
    }

    /// Whether a container lays out tiles.
    pub fn is_direction(&self, id: usize) -> (res: bool)
        requires
            valid(self@, id),
        ensures
            res == kind(self@, id).is_direction(),
    {
        let kind = self.nodes[id].data.kind;
        kind == ContainerKind::Workspace || kind == ContainerKind::Split
    }

    pub fn tiling_direction(&self, id: usize) -> (res: TilingDirection)
        requires
            valid(self@, id),
        ensures
            res == self@[id as int].data.tiling_direction,
    {
        self.nodes[id].data.tiling_direction
    }

    pub fn tiling_size(&self, id: usize) -> (res: i64)
        requires
            valid(self@, id),
        ensures
            res == share_of(self@, id),
    {
        self.nodes[id].data.tiling_size
    }

    pub fn window(&self, id: usize) -> (res: WindowProps)
        requires
            valid(self@, id),
        ensures
            res == self@[id as int].data.window,
    {
        self.nodes[id].data.window
    }

    pub fn parent(&self, id: usize) -> (res: Option<usize>)
        requires
            valid(self@, id),
        ensures
            res == self@[id as int].parent,
    {
        self.nodes[id].parent
    }

    pub fn child_count(&self, id: usize) -> (res: usize)
        requires
            valid(self@, id),
        ensures
            res == self@[id as int].children.len(),
    {
        self.nodes[id].children.len()
    }

    /// The children of a container, in layout order.
    pub fn children(&self, id: usize) -> (res: Vec<usize>)
        requires
            valid(self@, id),
        ensures
            res@ == self@[id as int].children,
    {
        let res = self.nodes[id].children.clone();
        assert(res@ =~= self@[id as int].children);
        res
    }

    /// The children of a container, the most recently focused first.
    pub fn focus_order(&self, id: usize) -> (res: Vec<usize>)
        requires
            valid(self@, id),
        ensures
            res@ == self@[id as int].focus,
    {
        let res = self.nodes[id].focus.clone();
        assert(res@ =~= self@[id as int].focus);
        res
    }

    /// The shares that a split has noted of its tiles.
    pub fn unstack(&self, id: usize) -> (res: Vec<(usize, i64)>)
        requires
            valid(self@, id),
        ensures
            res@ == self@[id as int].unstack,
    {
        let mut res: Vec<(usize, i64)> = Vec::new();
        let noted = &self.nodes[id].unstack;
        for i in 0..noted.len()
            invariant
                res@ == noted@.take(i as int),
        {
            res.push(noted[i]);
            assert(res@ =~= noted@.take(i + 1));
        }
        assert(noted@.take(noted.len() as int) =~= noted@);
        res
    }

    /// The place of a container among its parent's children.
    pub fn index(&self, id: usize) -> (res: usize)
        requires
            self.wf(),
            valid(self@, id),
            self@[id as int].parent is Some,
        ensures
            res == position(self@[self@[id as int].parent->0 as int].children, id),
            res < self@[self@[id as int].parent->0 as int].children.len(),
    {
        match self.nodes[id].parent {
            Some(p) => {
                proof {
                    lemma_parent_facts(self@, id);
                    lemma_position(self@[p as int].children, id);
                }
                find(&self.nodes[p].children, id)
            },
            None => 0,
        }
    }

    /// The tiles among some containers.
    pub fn tiles_among(&self, ids: &Vec<usize>) -> (res: Vec<usize>)
        requires
            forall|k: int| 0 <= k < ids.len() ==> valid(self@, #[trigger] ids[k]),
        ensures
            res@ == tiles_in(self@, ids@),
    {
        let mut res: Vec<usize> = Vec::new();
        assert(ids@.take(0) =~= Seq::<usize>::empty());
        for i in 0..ids.len()
            invariant
                forall|k: int| 0 <= k < ids.len() ==> valid(self@, #[trigger] ids[k]),
                res@ == tiles_in(self@, ids@.take(i as int)),
        {
            assert(ids@.take(i + 1).drop_last() =~= ids@.take(i as int));
            assert(valid(self@, ids[i as int]));
            if self.is_tile(ids[i]) {
                res.push(ids[i]);
            }
        }
        assert(ids@.take(ids.len() as int) =~= ids@);
        res
    }

    /// The tiles of a container, in layout order.
    pub fn tiling_children(&self, id: usize) -> (res: Vec<usize>)
        requires
            self.wf(),
            valid(self@, id),
        ensures
            res@ == tiles(self@, id),
    {
        proof {
            lemma_children(self@, id);
        }
        let children = self.children(id);
        assert forall|k: int| 0 <= k < children.len() implies valid(
            self@,
            #[trigger] children[k],
        ) by {
            assert(valid(self@, self@[id as int].children[k]));
        }
        self.tiles_among(&children)
    }

    /// The other tiles of the container that a tile stands in.
    pub fn tiling_siblings(&self, id: usize) -> (res: Vec<usize>)
        requires
            self.wf(),
            valid(self@, id),
        ensures
            res@ == tile_siblings(self@, id),
    {
        match self.parent(id) {
            Some(p) => {
                proof {
                    lemma_parent_facts(self@, id);
                }
                let all = self.tiling_children(p);
                remove_item(&all, id)
            },
            None => Vec::new(),
        }
    }

    pub fn set_data(&mut self, id: usize, data: NodeData)
        requires
            valid(old(self)@, id),
        ensures
            final(self)@ == with_data(old(self)@, id, data),
    {
        let ghost t = self@;
        self.nodes[id].data = data;
        assert(self@ =~= with_data(t, id, data));
    }

    pub fn set_window(&mut self, id: usize, window: WindowProps)
        requires
            valid(old(self)@, id),
        ensures
            final(self)@ == with_window(old(self)@, id, window),
    {
        let data = NodeData { window, ..self.data(id) };
        self.set_data(id, data);
    }

    pub fn set_tiling_direction(&mut self, id: usize, tiling_direction: TilingDirection)
        requires
            valid(old(self)@, id),
        ensures
            final(self)@ == with_direction(old(self)@, id, tiling_direction),
    {
        let data = NodeData { tiling_direction, ..self.data(id) };
        self.set_data(id, data);
    }

    pub fn set_tiling_size(&mut self, id: usize, tiling_size: i64)
        requires
            valid(old(self)@, id),
        ensures
            final(self)@ == with_share(old(self)@, id, tiling_size),
    {
        let data = NodeData { tiling_size, ..self.data(id) };
        self.set_data(id, data);
    }

    pub(crate) fn set_parent(&mut self, id: usize, parent: Option<usize>)
        requires
            valid(old(self)@, id),
        ensures
            final(self)@ == with_parent(old(self)@, id, parent),
    {
        let ghost t = self@;
        self.nodes[id].parent = parent;
        assert(self@ =~= with_parent(t, id, parent));
    }

    pub(crate) fn set_children(&mut self, id: usize, children: Vec<usize>)
        requires
            valid(old(self)@, id),
        ensures
            final(self)@ == with_children(old(self)@, id, children@),
    {
        let ghost t = self@;
        self.nodes[id].children = children;
        assert(self@ =~= with_children(t, id, children@));
    }

    pub(crate) fn set_focus(&mut self, id: usize, focus: Vec<usize>)
        requires
            valid(old(self)@, id),
        ensures
            final(self)@ == with_focus(old(self)@, id, focus@),
    {
        let ghost t = self@;
        self.nodes[id].focus = focus;
        assert(self@ =~= with_focus(t, id, focus@));
    }

    pub(crate) fn set_unstack(&mut self, id: usize, unstack: Vec<(usize, i64)>)
        requires
            valid(old(self)@, id),
        ensures
            final(self)@ == with_unstack(old(self)@, id, unstack@),
    {
        let ghost t = self@;
        self.nodes[id].unstack = unstack;
        assert(self@ =~= with_unstack(t, id, unstack@));
    }

    /// The shares of some containers.
    pub fn shares(&self, ids: &Vec<usize>) -> (res: Vec<i64>)
        requires
            forall|k: int| 0 <= k < ids.len() ==> valid(self@, #[trigger] ids[k]),
        ensures
            res@ == shares_of(self@, ids@),
    {
        let mut res: Vec<i64> = Vec::new();
        for i in 0..ids.len()
            invariant
                forall|k: int| 0 <= k < ids.len() ==> valid(self@, #[trigger] ids[k]),
                res.len() == i,
                forall|k: int| 0 <= k < i ==> #[trigger] res[k] == share_of(self@, ids[k]),
        {
            assert(valid(self@, ids[i as int]));
            res.push(self.tiling_size(ids[i]));
        }
        assert(res@ =~= shares_of(self@, ids@));
        res
    }

    /// Gives each container its new share.
    pub fn set_shares(&mut self, ids: &Vec<usize>, shares: &Vec<i64>)
        requires
            ids.len() == shares.len(),
            forall|k: int| 0 <= k < ids.len() ==> valid(old(self)@, #[trigger] ids[k]),
        ensures
            final(self)@ == with_shares(old(self)@, ids@, shares@),
    {
        let ghost t = self@;
        assert(ids@.take(0) =~= Seq::<usize>::empty());
        for i in 0..ids.len()
            invariant
                ids.len() == shares.len(),
                forall|k: int| 0 <= k < ids.len() ==> valid(t, #[trigger] ids[k]),
                self@ == with_shares(t, ids@.take(i as int), shares@.take(i as int)),
                self@.len() == t.len(),
        {
            assert(ids@.take(i + 1).drop_last() =~= ids@.take(i as int));
            assert(shares@.take(i + 1).drop_last() =~= shares@.take(i as int));
            assert(valid(t, ids[i as int]));
            self.set_tiling_size(ids[i], shares[i]);
        }
        assert(ids@.take(ids.len() as int) =~= ids@);
        assert(shares@.take(ids.len() as int) =~= shares@);
    }

    pub(crate) fn set_parents(&mut self, ids: &Vec<usize>, parent: Option<usize>)
        requires
            forall|k: int| 0 <= k < ids.len() ==> valid(old(self)@, #[trigger] ids[k]),
        ensures
            final(self)@ == with_parents(old(self)@, ids@, parent),
    {
        let ghost t = self@;
        assert(ids@.take(0) =~= Seq::<usize>::empty());
        for i in 0..ids.len()
            invariant
                forall|k: int| 0 <= k < ids.len() ==> valid(t, #[trigger] ids[k]),
                self@ == with_parents(t, ids@.take(i as int), parent),
                self@.len() == t.len(),
        {
            assert(ids@.take(i + 1).drop_last() =~= ids@.take(i as int));
            assert(valid(t, ids[i as int]));
            self.set_parent(ids[i], parent);
        }
        assert(ids@.take(ids.len() as int) =~= ids@);
    }
}

pub proof fn lemma_push_wf(t: Tree, data: NodeData)
    requires
        wf(t),
        t.len() < MAX_CONTAINERS,
        t.len() < usize::MAX,
        share_ok(data.tiling_size as int),
    ensures
        wf(t.push(lone(data))),
{
    let u = t.push(lone(data));
    let rank0 = choose|rank: Seq<int>| crate::tree::ranked(t, rank);
    let rank = rank0.push(0);
    assert forall|c: int| 0 <= c < u.len() implies (#[trigger] u[c].parent matches Some(q)
        ==> valid(u, q) && rank[c] < rank[q as int]) by {
        if c < t.len() {
            assert(t[c].parent matches Some(q) ==> valid(t, q) && rank0[c] < rank0[q as int]);
        }
    }
    assert(crate::tree::ranked(u, rank));
    assert forall|c: int| 0 <= c < u.len() implies #[trigger] crate::tree::listed(u, c) by {
        if c < t.len() {
            assert(crate::tree::listed(t, c));
        }
    }
    assert forall|p: int, k: int| 0 <= p < u.len() && 0 <= k < u[p].children.len() implies valid(
        u,
        #[trigger] u[p].children[k],
    ) && u[u[p].children[k] as int].parent == Some(p as usize) by {
        if p < t.len() {
            assert(valid(t, t[p].children[k]));
        }
    }
    assert forall|p: int| 0 <= p < u.len() implies (#[trigger] u[p].children).no_duplicates() by {
        if p < t.len() {
            assert(t[p].children.no_duplicates());
        }
    }
    assert forall|p: int| 0 <= p < u.len() implies (#[trigger] u[p].focus).no_duplicates() by {
        if p < t.len() {
            assert(t[p].focus.no_duplicates());
        }
    }
    assert forall|p: int| 0 <= p < u.len() implies share_ok(
        #[trigger] u[p].data.tiling_size as int,
    ) by {
        if p < t.len() {
            assert(share_ok(t[p].data.tiling_size as int));
        }
    }
    assert forall|p: int, y: usize| 0 <= p < u.len() implies (#[trigger] u[p].focus.contains(y)
        <==> u[p].children.contains(y)) by {
        if p < t.len() {
            assert(t[p].focus.contains(y) <==> t[p].children.contains(y));
        }
    }
}

} // verus!
