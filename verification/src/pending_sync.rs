//! What is left to bring to the screen after a command.

use vstd::prelude::*;

use crate::lists::{contains, lemma_push_contains, lemma_without, remove_item};

verus! {

/// What is pending, as sets.
pub struct PendingSyncView {
    pub redraw: Set<usize>,
    pub reorder: Set<usize>,
    pub focused_effect_update: bool,
    pub cursor_jump: bool,
    pub animations_suppressed: bool,
}

impl PendingSyncView {
    pub open spec fn with_redraw(self, id: usize) -> PendingSyncView {
        PendingSyncView { redraw: self.redraw.insert(id), ..self }
    }

    pub open spec fn with_redraws(self, ids: Seq<usize>) -> PendingSyncView {
        PendingSyncView { redraw: self.redraw.union(ids.to_set()), ..self }
    }

    pub open spec fn without_redraw(self, id: usize) -> PendingSyncView {
        PendingSyncView { redraw: self.redraw.remove(id), ..self }
    }

    pub open spec fn with_reorder(self, id: usize) -> PendingSyncView {
        PendingSyncView { reorder: self.reorder.insert(id), ..self }
    }

    pub open spec fn with_focused_effect_update(self) -> PendingSyncView {
        PendingSyncView { focused_effect_update: true, ..self }
    }

    pub open spec fn with_cursor_jump(self) -> PendingSyncView {
        PendingSyncView { cursor_jump: true, ..self }
    }

    pub open spec fn without_animations(self) -> PendingSyncView {
        PendingSyncView { animations_suppressed: true, ..self }
    }
}

/// Changes that are queued until the next synchronization with the screen.
#[derive(Debug)]
pub struct PendingSync {
    redraw: Vec<usize>,
    reorder: Vec<usize>,
    focused_effect_update: bool,
    cursor_jump: bool,
    animations_suppressed: bool,
}

impl View for PendingSync {
    type V = PendingSyncView;

    closed spec fn view(&self) -> PendingSyncView {
        PendingSyncView {
            redraw: self.redraw@.to_set(),
            reorder: self.reorder@.to_set(),
            focused_effect_update: self.focused_effect_update,
            cursor_jump: self.cursor_jump,
            animations_suppressed: self.animations_suppressed,
        }
    }
}

/// Adds a number to a list that holds each number once.
fn add_once(list: &mut Vec<usize>, id: usize)
    ensures
        final(list)@.to_set() == old(list)@.to_set().insert(id),
{
    let ghost before = list@;
    if contains(list, id) {
        assert(before.to_set().insert(id) =~= before.to_set());
    } else {
        list.push(id);
        assert(list@.to_set() =~= before.to_set().insert(id)) by {
            assert forall|y: usize| list@.to_set().contains(y) <==> #[trigger] before.to_set()
                .insert(id)
                .contains(y) by {
                lemma_push_contains(before, id, y);
            }
        }
    }
}

impl PendingSync {
    /// Nothing is pending.
    pub fn new() -> (res: PendingSync)
        ensures
            res@ == (PendingSyncView {
                redraw: Set::empty(),
                reorder: Set::empty(),
                focused_effect_update: false,
                cursor_jump: false,
                animations_suppressed: false,
            }),
    {
        let res = PendingSync {
            redraw: Vec::new(),
            reorder: Vec::new(),
            focused_effect_update: false,
            cursor_jump: false,
            animations_suppressed: false,
        };
        assert(res.redraw@.to_set() =~= Set::<usize>::empty());
        assert(res.reorder@.to_set() =~= Set::<usize>::empty());
        res
    }

    /// Queues a container to be drawn again.
    pub fn queue_container_to_redraw(&mut self, id: usize)
        ensures
            final(self)@ == old(self)@.with_redraw(id),
    {
        add_once(&mut self.redraw, id);
    }

    /// Queues containers to be drawn again.
    pub fn queue_containers_to_redraw(&mut self, ids: &Vec<usize>)
        ensures
            final(self)@ == old(self)@.with_redraws(ids@),
    {
        let ghost before = self@;
        assert(before.redraw.union(ids@.take(0).to_set()) =~= before.redraw);
        for i in 0..ids.len()
            invariant
                self@ == before.with_redraws(ids@.take(i as int)),
        {
            self.queue_container_to_redraw(ids[i]);
            proof {
                let front = ids@.take(i as int);
                let more = ids@.take(i + 1);
                assert(more =~= front.push(ids@[i as int]));
                assert(before.redraw.union(front.to_set()).insert(ids@[i as int])
                    =~= before.redraw.union(more.to_set())) by {
                    assert forall|y: usize|
                        before.redraw.union(front.to_set()).insert(ids@[i as int]).contains(y)
                            <==> #[trigger] before.redraw.union(more.to_set()).contains(y) by {
                        lemma_push_contains(front, ids@[i as int], y);
                    }
                }
            }
        }
        assert(ids@.take(ids.len() as int) =~= ids@);
    }

    /// Takes a container out of the queue.
    pub fn dequeue_container_from_redraw(&mut self, id: usize)
        ensures
            final(self)@ == old(self)@.without_redraw(id),
    {
        let ghost before = self.redraw@;
        let rest = remove_item(&self.redraw, id);
        proof {
            lemma_without(before, id);
            assert(rest@.to_set() =~= before.to_set().remove(id));
        }
        self.redraw = rest;
    }

    /// Whether a container is queued to be drawn again.
    pub fn is_queued_for_redraw(&self, id: usize) -> (res: bool)
        ensures
            res == self@.redraw.contains(id),
    {
        contains(&self.redraw, id)
    }

    /// The containers that are queued to be drawn again.
    pub fn containers_to_redraw(&self) -> (res: Vec<usize>)
        ensures
            res@.to_set() == self@.redraw,
    {
        let res = self.redraw.clone();
        assert(res@ =~= self.redraw@);
        res
    }

    /// Queues a workspace whose windows are to be brought into order.
    pub fn queue_workspace_to_reorder(&mut self, id: usize)
        ensures
            final(self)@ == old(self)@.with_reorder(id),
    {
        add_once(&mut self.reorder, id);
    }

    /// The workspaces whose windows are to be brought into order.
    pub fn workspaces_to_reorder(&self) -> (res: Vec<usize>)
        ensures
            res@.to_set() == self@.reorder,
    {
        let res = self.reorder.clone();
        assert(res@ =~= self.reorder@);
        res
    }

    /// Queues an update of the effects on the focused window.
    pub fn queue_focused_effect_update(&mut self)
        ensures
            final(self)@ == old(self)@.with_focused_effect_update(),
    {
        self.focused_effect_update = true;
    }

    pub fn needs_focused_effect_update(&self) -> (res: bool)
        ensures
            res == self@.focused_effect_update,
    {
        self.focused_effect_update
    }

    /// Queues a jump of the cursor to the focused window.
    pub fn queue_cursor_jump(&mut self)
        ensures
            final(self)@ == old(self)@.with_cursor_jump(),
    {
        self.cursor_jump = true;
    }

    pub fn needs_cursor_jump(&self) -> (res: bool)
        ensures
            res == self@.cursor_jump,
    {
        self.cursor_jump
    }

    /// Lets windows jump to their places at the next synchronization.
    pub fn suppress_animations(&mut self)
        ensures
            final(self)@ == old(self)@.without_animations(),
    {
        self.animations_suppressed = true;
    }

    pub fn animations_suppressed(&self) -> (res: bool)
        ensures
            res == self@.animations_suppressed,
    {
        self.animations_suppressed
    }
}

} // verus!
