//! The state that commands work on.

use std::collections::HashMap;

use vstd::prelude::*;

use crate::geometry::Rect;
use crate::layout::Layout;
use crate::pending_sync::{PendingSync, PendingSyncView};

verus! {

/// A set of keybindings that can be switched on.
#[derive(Debug)]
pub struct BindingModeConfig {
    pub name: String,
}

/// What is reported to whoever listens.
#[derive(Debug)]
pub enum WmEvent {
    BindingModesChanged(Vec<BindingModeConfig>),
}

/// The state of the window manager.
#[derive(Debug)]
pub struct WmState {
    pub layout: Layout,
    pub pending_sync: PendingSync,
    /// The binding modes that are on.
    pub binding_modes: Vec<BindingModeConfig>,
    /// Events that have not been sent yet, the oldest first.
    pub events: Vec<WmEvent>,
    /// Where windows were last, by container number.
    pub window_target_positions: HashMap<usize, Rect>,
    pub is_paused: bool,
}

impl WmState {
    /// A state with an empty layout and nothing pending.
    pub fn new() -> (res: WmState)
        ensures
            res.layout.wf(),
            res.layout@.len() == 1,
            res.pending_sync@ == (PendingSyncView {
                redraw: Set::empty(),
                reorder: Set::empty(),
                focused_effect_update: false,
                cursor_jump: false,
                animations_suppressed: false,
            }),
            res.binding_modes@.len() == 0,
            res.events@.len() == 0,
            res.window_target_positions@ == Map::<usize, Rect>::empty(),
            !res.is_paused,
    {
        WmState {
            layout: Layout::new(),
            pending_sync: PendingSync::new(),
            binding_modes: Vec::new(),
            events: Vec::new(),
            window_target_positions: HashMap::new(),
            is_paused: false,
        }
    }
}

/// The names of some binding modes.
pub open spec fn mode_names(modes: Seq<BindingModeConfig>) -> Seq<Seq<char>> {
    Seq::new(modes.len(), |i: int| modes[i].name@)
}

/// Whether a binding mode of that name is among some modes.
pub open spec fn has_mode(modes: Seq<BindingModeConfig>, name: Seq<char>) -> bool {
    mode_names(modes).contains(name)
}

/// The names other than `name`, in the same order.
pub open spec fn other_names(names: Seq<Seq<char>>, name: Seq<char>) -> Seq<Seq<char>> {
    names.filter(|n: Seq<char>| n != name)
}

/// Whether a binding mode of that name is on.
pub fn is_mode_on(modes: &Vec<BindingModeConfig>, name: &str) -> (res: bool)
    ensures
        res == has_mode(modes@, name@),
{
    let wanted: String = name.to_owned();
    for i in 0..modes.len()
        invariant
            wanted@ == name@,
            forall|k: int| 0 <= k < i ==> (#[trigger] mode_names(modes@)[k]) != name@,
    {
        if modes[i].name == wanted {
            assert(mode_names(modes@)[i as int] == name@);
            return true;
        }
        assert(mode_names(modes@)[i as int] != name@);
    }
    false
}

fn clone_modes(modes: &Vec<BindingModeConfig>) -> (res: Vec<BindingModeConfig>)
    ensures
        mode_names(res@) == mode_names(modes@),
{
    let mut res: Vec<BindingModeConfig> = Vec::new();
    for i in 0..modes.len()
        invariant
            res.len() == i,
            forall|k: int| 0 <= k < i ==> (#[trigger] res[k]).name@ == modes[k].name@,
    {
        res.push(BindingModeConfig { name: modes[i].name.clone() });
    }
    assert(mode_names(res@) =~= mode_names(modes@));
    res
}

/// Switches a binding mode off. The effects on the focused window are brought up to
/// date, and the modes that stay on are reported.
pub fn disable_binding_mode(name: &str, state: &mut WmState)
    ensures
        mode_names(final(state).binding_modes@) == other_names(
            mode_names(old(state).binding_modes@),
            name@,
        ),
        final(state).pending_sync@ == old(state).pending_sync@.with_focused_effect_update(),
        final(state).events@.len() == old(state).events@.len() + 1,
        forall|k: int|
            0 <= k < old(state).events@.len() ==> final(state).events@[k] == old(state).events@[k],
        final(state).events@.last() matches WmEvent::BindingModesChanged(modes) && mode_names(
            modes@,
        ) == mode_names(final(state).binding_modes@),
        final(state).layout == old(state).layout,
        final(state).window_target_positions == old(state).window_target_positions,
        final(state).is_paused == old(state).is_paused,
{
    broadcast use vstd::seq_lib::group_filter_ensures;

    let wanted: String = name.to_owned();
    let ghost names = mode_names(state.binding_modes@);
    let ghost differs = |n: Seq<char>| n != name@;
    let mut rest: Vec<BindingModeConfig> = Vec::new();
    assert(mode_names(rest@) =~= Seq::empty());
    assert(names.take(0).filter(differs) =~= Seq::empty()) by {
        reveal(Seq::filter);
    }
    for i in 0..state.binding_modes.len()
        invariant
            *state == *old(state),
            wanted@ == name@,
            names == mode_names(state.binding_modes@),
            differs == |n: Seq<char>| n != name@,
            mode_names(rest@) == names.take(i as int).filter(differs),
    {
        let ghost before = rest@;
        let mode = &state.binding_modes[i];
        assert(mode.name@ == names[i as int]);
        assert(names.take(i + 1).drop_last() =~= names.take(i as int));
        if mode.name != wanted {
            rest.push(BindingModeConfig { name: mode.name.clone() });
            assert(mode_names(rest@) =~= mode_names(before).push(names[i as int]));
        }
        assert(mode_names(rest@) =~= names.take(i + 1).filter(differs)) by {
            reveal(Seq::filter);
        }
    }
    assert(names.take(names.len() as int) =~= names);
    let report = clone_modes(&rest);
    state.binding_modes = rest;
    state.pending_sync.queue_focused_effect_update();
    state.events.push(WmEvent::BindingModesChanged(report));
}

/// A binding mode that was switched off is not on any more, and the others are as they were.
pub proof fn switching_off_leaves_the_others(names: Seq<Seq<char>>, name: Seq<char>, other: Seq<char>)
    ensures
        !other_names(names, name).contains(name),
        other != name ==> (other_names(names, name).contains(other) <==> names.contains(other)),
{
    broadcast use vstd::seq_lib::group_filter_ensures;

    let differs = |n: Seq<char>| n != name;
    let rest = other_names(names, name);
    if rest.contains(name) {
        let k = choose|k: int| 0 <= k < rest.len() && rest[k] == name;
        assert(differs(rest[k]));
    }
    if other != name && names.contains(other) {
        assert(differs(other));
    }
    if other != name && rest.contains(other) {
        lemma_other_name(names, name, other);
    }
}

proof fn lemma_other_name(names: Seq<Seq<char>>, name: Seq<char>, other: Seq<char>)
    requires
        other_names(names, name).contains(other),
    ensures
        names.contains(other),
    decreases names.len(),
{
    reveal(Seq::filter);
    if names.len() > 0 {
        let front = names.drop_last();
        let rest = other_names(front, name);
        if names.last() == other {
            assert(names[names.len() - 1] == other);
        } else {
            let all = other_names(names, name);
            let k = choose|k: int| 0 <= k < all.len() && all[k] == other;
            assert(rest[k] == other);
            lemma_other_name(front, name, other);
            let j = choose|j: int| 0 <= j < front.len() && front[j] == other;
            assert(names[j] == other);
        }
    }
}

} // verus!
