//! Keybindings and what key events do with them.

use vstd::prelude::*;

use crate::errors::WmError;

verus! {

/// A key on the keyboard. The modifiers exist on the left, on the right and for either side.
#[derive(Debug, Clone, Copy, PartialEq, Eq, Hash, Structural)]
pub enum Key {
    Shift,
    LShift,
    RShift,
    Ctrl,
    LCtrl,
    RCtrl,
    Alt,
    LAlt,
    RAlt,
    Win,
    LWin,
    RWin,
    Cmd,
    LCmd,
    RCmd,
    A,
    B,
    C,
    D,
    E,
    F,
    G,
    H,
    I,
    J,
    K,
    L,
    M,
    N,
    O,
    P,
    Q,
    R,
    S,
    T,
    U,
    V,
    W,
    X,
    Y,
    Z,
    D0,
    D1,
    D2,
    D3,
    D4,
    D5,
    D6,
    D7,
    D8,
    D9,
    F1,
    F2,
    F3,
    F4,
    F5,
    F6,
    F7,
    F8,
    F9,
    F10,
    F11,
    F12,
    Left,
    Right,
    Up,
    Down,
    Escape,
    Enter,
    Space,
    Tab,
    Backspace,
    Delete,
    Insert,
    Home,
    End,
    PageUp,
    PageDown,
    /// Any other key, by its code.
    Custom(u16),
}

/// Keys that are pressed together, the last one last.
#[derive(Debug, Clone, PartialEq, Eq)]
pub struct Keybinding {
    keys: Vec<Key>,
}

impl View for Keybinding {
    type V = Seq<Key>;

    closed spec fn view(&self) -> Seq<Key> {
        self.keys@
    }
}

/// Whether a key is among some keys.
pub fn has_key(keys: &Vec<Key>, key: Key) -> (res: bool)
    ensures
        res == keys@.contains(key),
{
    for i in 0..keys.len()
        invariant
            forall|k: int| 0 <= k < i ==> keys@[k] != key,
    {
        if keys[i] == key {
            assert(keys@[i as int] == key);
            return true;
        }
    }
    false
}

impl Keybinding {
    /// Whether the keybinding has a key at all.
    pub open spec fn wf(&self) -> bool {
        self@.len() > 0
    }

    /// A keybinding of some keys, at least one.
    pub fn new(keys: Vec<Key>) -> (res: Result<Keybinding, WmError>)
        ensures
            keys@.len() == 0 ==> res == Err::<Keybinding, WmError>(WmError::InvalidKeybinding),
            keys@.len() > 0 ==> (res matches Ok(binding) && binding@ == keys@ && binding.wf()),
    {
        if keys.len() == 0 {
            return Err(WmError::InvalidKeybinding);
        }
        Ok(Keybinding { keys })
    }

    /// The keys of the keybinding.
    pub fn keys(&self) -> (res: &[Key])
        ensures
            res@ == self@,
    {
        self.keys.as_slice()
    }

    /// The key that sets the keybinding off: the last one.
    pub fn trigger_key(&self) -> (res: &Key)
        requires
            self.wf(),
        ensures
            *res == self@.last(),
    {
        &self.keys[self.keys.len() - 1]
    }

    fn holds(&self, key: Key) -> (res: bool)
        ensures
            res == self@.contains(key),
    {
        has_key(&self.keys, key)
    }

    fn is_same(&self, other: &Keybinding) -> (res: bool)
        ensures
            res == (self@ == other@),
    {
        if self.keys.len() != other.keys.len() {
            return false;
        }
        for i in 0..self.keys.len()
            invariant
                self.keys.len() == other.keys.len(),
                forall|k: int| 0 <= k < i ==> self.keys@[k] == other.keys@[k],
        {
            if self.keys[i] != other.keys[i] {
                return false;
            }
        }
        assert(self@ =~= other@);
        true
    }

    fn copy(&self) -> (res: Keybinding)
        ensures
            res@ == self@,
    {
        let mut keys: Vec<Key> = Vec::new();
        for i in 0..self.keys.len()
            invariant
                keys@ == self.keys@.take(i as int),
        {
            keys.push(self.keys[i]);
            assert(keys@ =~= self.keys@.take(i + 1));
        }
        assert(self.keys@.take(self.keys.len() as int) =~= self.keys@);
        Keybinding { keys }
    }
}

/// The keys of some keybindings.
pub open spec fn all_keys(bindings: Seq<Keybinding>) -> Seq<Seq<Key>> {
    Seq::new(bindings.len(), |i: int| bindings[i]@)
}

pub open spec fn all_wf(bindings: Seq<Keybinding>) -> bool {
    forall|i: int| 0 <= i < bindings.len() ==> (#[trigger] bindings[i]).wf()
}

pub open spec fn maybe_keys(binding: Option<Keybinding>) -> Option<Seq<Key>> {
    match binding {
        Some(binding) => Some(binding@),
        None => None,
    }
}

/// Keybindings that act as long as they are held. What counts is the one that is held at present;
/// repeats are never queued.
#[derive(Debug)]
pub struct ContinuousBindings {
    pub bindings: Vec<Keybinding>,
    pub held: Option<Keybinding>,
}

impl ContinuousBindings {
    /// Notes that a keybinding was pressed. Only a continuous one is held, and it takes the place
    /// of the one before. Says whether it is continuous.
    pub fn press(&mut self, binding: &Keybinding) -> (res: bool)
        ensures
            res == all_keys(old(self).bindings@).contains(binding@),
            maybe_keys(final(self).held) == (if res {
                Some(binding@)
            } else {
                None
            }),
            final(self).bindings == old(self).bindings,
    {
        let ghost keys = all_keys(self.bindings@);
        let mut found: bool = false;
        for i in 0..self.bindings.len()
            invariant
                keys == all_keys(self.bindings@),
                *self == *old(self),
                found ==> keys.contains(binding@),
                !found ==> forall|k: int| 0 <= k < i ==> keys[k] != binding@,
        {
            if self.bindings[i].is_same(binding) {
                assert(keys[i as int] == binding@);
                found = true;
            } else {
                assert(keys[i as int] != binding@);
            }
        }
        if found {
            self.held = Some(binding.copy());
        } else {
            self.held = None;
        }
        found
    }

    /// Notes that a key was released. A keybinding with that key is no longer held.
    pub fn release(&mut self, key: Key)
        ensures
            maybe_keys(final(self).held) == (match maybe_keys(old(self).held) {
                Some(keys) if !keys.contains(key) => Some(keys),
                _ => None,
            }),
            final(self).bindings == old(self).bindings,
    {
        let ends: bool = match &self.held {
            Some(binding) => binding.holds(key),
            None => false,
        };
        if ends {
            self.held = None;
        }
    }
}

/// The keybindings that a key sets off.
#[derive(Debug)]
pub struct KeyGroup {
    pub key: Key,
    pub bindings: Vec<Keybinding>,
}

/// Those of some keybindings that a key sets off, in the same order.
pub open spec fn triggered_by(bindings: Seq<Seq<Key>>, key: Key) -> Seq<Seq<Key>>
    decreases bindings.len(),
{
    if bindings.len() == 0 {
        bindings
    } else if bindings.last().last() == key {
        triggered_by(bindings.drop_last(), key).push(bindings.last())
    } else {
        triggered_by(bindings.drop_last(), key)
    }
}

/// The keybindings that are grouped under a key.
pub open spec fn grouped_under(groups: Seq<KeyGroup>, key: Key) -> Seq<Seq<Key>>
    decreases groups.len(),
{
    if groups.len() == 0 {
        Seq::empty()
    } else if groups.last().key == key {
        all_keys(groups.last().bindings@)
    } else {
        grouped_under(groups.drop_last(), key)
    }
}

/// Whether each key has at most one group, and all keybindings have keys.
pub open spec fn groups_wf(groups: Seq<KeyGroup>) -> bool {
    &&& forall|i: int, j: int|
        0 <= i < j < groups.len() ==> (#[trigger] groups[i]).key != (#[trigger] groups[j]).key
    &&& forall|i: int| 0 <= i < groups.len() ==> all_wf((#[trigger] groups[i]).bindings@)
}

proof fn lemma_grouped_under(groups: Seq<KeyGroup>, i: int)
    requires
        groups_wf(groups),
        0 <= i < groups.len(),
    ensures
        grouped_under(groups, groups[i].key) == all_keys(groups[i].bindings@),
    decreases groups.len(),
{
    if i < groups.len() - 1 {
        let front = groups.drop_last();
        assert(groups[i].key != groups[groups.len() - 1].key);
        assert forall|a: int, b: int| 0 <= a < b < front.len() implies (#[trigger] front[a]).key
            != (#[trigger] front[b]).key by {
            assert(groups[a].key != groups[b].key);
        }
        assert forall|a: int| 0 <= a < front.len() implies all_wf(
            (#[trigger] front[a]).bindings@,
        ) by {
            assert(all_wf(groups[a].bindings@));
        }
        assert(front[i] == groups[i]);
        lemma_grouped_under(front, i);
    }
}

proof fn lemma_not_grouped(groups: Seq<KeyGroup>, key: Key)
    requires
        forall|i: int| 0 <= i < groups.len() ==> (#[trigger] groups[i]).key != key,
    ensures
        grouped_under(groups, key) == Seq::<Seq<Key>>::empty(),
    decreases groups.len(),
{
    if groups.len() > 0 {
        let front = groups.drop_last();
        assert forall|i: int| 0 <= i < front.len() implies (#[trigger] front[i]).key != key by {
            assert(groups[i].key != key);
        }
        assert(groups[groups.len() - 1].key != key);
        lemma_not_grouped(front, key);
    }
}

proof fn lemma_other_groups(a: Seq<KeyGroup>, b: Seq<KeyGroup>, key: Key)
    requires
        a.len() == b.len(),
        forall|i: int| 0 <= i < a.len() ==> (#[trigger] a[i]).key == b[i].key,
        forall|i: int|
            0 <= i < a.len() && (#[trigger] a[i]).key == key ==> all_keys(a[i].bindings@)
                == all_keys(b[i].bindings@),
    ensures
        grouped_under(a, key) == grouped_under(b, key),
    decreases a.len(),
{
    if a.len() > 0 {
        let fa = a.drop_last();
        let fb = b.drop_last();
        assert forall|i: int| 0 <= i < fa.len() implies (#[trigger] fa[i]).key == fb[i].key by {
            assert(a[i].key == b[i].key);
        }
        assert forall|i: int| 0 <= i < fa.len() && (#[trigger] fa[i]).key == key implies all_keys(
            fa[i].bindings@,
        ) == all_keys(fb[i].bindings@) by {
            assert(a[i].key == key);
        }
        lemma_other_groups(fa, fb, key);
        assert(a[a.len() - 1].key == b[b.len() - 1].key);
    }
}

fn find_group(groups: &Vec<KeyGroup>, key: Key) -> (res: Option<usize>)
    ensures
        match res {
            Some(i) => i < groups.len() && groups[i as int].key == key,
            None => forall|i: int| 0 <= i < groups.len() ==> (#[trigger] groups[i]).key != key,
        },
{
    for i in 0..groups.len()
        invariant
            forall|k: int| 0 <= k < i ==> (#[trigger] groups[k]).key != key,
    {
        if groups[i].key == key {
            return Some(i);
        }
    }
    None
}

fn add_to_group(groups: &mut Vec<KeyGroup>, binding: &Keybinding)
    requires
        groups_wf(old(groups)@),
        binding.wf(),
    ensures
        groups_wf(final(groups)@),
        forall|key: Key| #[trigger]
            grouped_under(final(groups)@, key) == (if key == binding@.last() {
                grouped_under(old(groups)@, key).push(binding@)
            } else {
                grouped_under(old(groups)@, key)
            }),
{
    let ghost before = groups@;
    let key = *binding.trigger_key();
    match find_group(groups, key) {
        Some(i) => {
            let ghost bindings = groups@[i as int].bindings@;
            groups[i].bindings.push(binding.copy());
            proof {
                let after = groups@;
                let list = after[i as int].bindings@;
                assert(all_keys(list) =~= all_keys(bindings).push(binding@));
                assert forall|a: int, b: int| 0 <= a < b < after.len() implies (
                #[trigger] after[a]).key != (#[trigger] after[b]).key by {
                    assert(before[a].key != before[b].key);
                }
                assert forall|a: int| 0 <= a < after.len() implies all_wf(
                    (#[trigger] after[a]).bindings@,
                ) by {
                    assert(all_wf(before[a].bindings@));
                    if a == i {
                        assert forall|k: int| 0 <= k < list.len() implies (
                        #[trigger] list[k]).wf() by {
                            if k < bindings.len() {
                                assert(bindings[k].wf());
                            }
                        }
                    }
                }
                lemma_grouped_under(before, i as int);
                lemma_grouped_under(after, i as int);
                assert forall|k: Key| #[trigger]
                    grouped_under(after, k) == (if k == key {
                        grouped_under(before, k).push(binding@)
                    } else {
                        grouped_under(before, k)
                    }) by {
                    if k != key {
                        lemma_other_groups(before, after, k);
                    }
                }
            }
        },
        None => {
            let mut bindings: Vec<Keybinding> = Vec::new();
            bindings.push(binding.copy());
            groups.push(KeyGroup { key, bindings });
            proof {
                let after = groups@;
                assert(after.drop_last() =~= before);
                lemma_not_grouped(before, key);
                assert(all_keys(after.last().bindings@) =~= Seq::<Seq<Key>>::empty().push(
                    binding@,
                ));
                assert forall|a: int, b: int| 0 <= a < b < after.len() implies (
                #[trigger] after[a]).key != (#[trigger] after[b]).key by {
                    assert(before[a].key != key);
                    if b < before.len() {
                        assert(before[a].key != before[b].key);
                    }
                }
                assert forall|a: int| 0 <= a < after.len() implies all_wf(
                    (#[trigger] after[a]).bindings@,
                ) by {
                    if a < before.len() {
                        assert(all_wf(before[a].bindings@));
                    }
                }
            }
        },
    }
}

/// Groups keybindings by the key that sets them off.
pub fn create_keybinding_map(keybindings: &Vec<Keybinding>) -> (res: Vec<KeyGroup>)
    requires
        all_wf(keybindings@),
    ensures
        groups_wf(res@),
        forall|key: Key| #[trigger]
            grouped_under(res@, key) == triggered_by(all_keys(keybindings@), key),
{
    let mut res: Vec<KeyGroup> = Vec::new();
    let ghost keys = all_keys(keybindings@);
    assert(keys.take(0) =~= Seq::<Seq<Key>>::empty());
    for i in 0..keybindings.len()
        invariant
            all_wf(keybindings@),
            keys == all_keys(keybindings@),
            groups_wf(res@),
            forall|key: Key| #[trigger]
                grouped_under(res@, key) == triggered_by(keys.take(i as int), key),
    {
        assert(keybindings@[i as int].wf());
        let ghost before = res@;
        add_to_group(&mut res, &keybindings[i]);
        proof {
            assert(keys.take(i + 1).drop_last() =~= keys.take(i as int));
            assert(keys.take(i + 1).last() == keybindings@[i as int]@);
            assert forall|key: Key| #[trigger]
                grouped_under(res@, key) == triggered_by(keys.take(i + 1), key) by {
                assert(grouped_under(before, key) == triggered_by(keys.take(i as int), key));
            }
        }
    }
    assert(keys.take(keybindings.len() as int) =~= keys);
    res
}

/// Whether all keys of a keybinding are down, where the key that was just pressed counts as down.
pub open spec fn is_pressed(keys: Seq<Key>, pressed: Key, down: Seq<Key>) -> bool {
    forall|i: int| 0 <= i < keys.len() ==> #[trigger] keys[i] == pressed || down.contains(keys[i])
}

/// The longest of some keybindings that are pressed, a later one where two are equally long.
pub open spec fn longest_pressed(
    bindings: Seq<Seq<Key>>,
    pressed: Key,
    down: Seq<Key>,
) -> Option<Seq<Key>>
    decreases bindings.len(),
{
    if bindings.len() == 0 {
        None
    } else {
        let before = longest_pressed(bindings.drop_last(), pressed, down);
        let binding = bindings.last();
        if !is_pressed(binding, pressed, down) {
            before
        } else {
            match before {
                Some(longest) if longest.len() > binding.len() => before,
                _ => Some(binding),
            }
        }
    }
}

/// The keys of a modifier, the one for either side first.
pub open spec fn modifier_keys(modifier: int) -> Seq<Key> {
    if modifier == 0 {
        seq![Key::Shift, Key::LShift, Key::RShift]
    } else if modifier == 1 {
        seq![Key::Ctrl, Key::LCtrl, Key::RCtrl]
    } else if modifier == 2 {
        seq![Key::Alt, Key::LAlt, Key::RAlt]
    } else {
        seq![Key::Win, Key::LWin, Key::RWin, Key::Cmd, Key::LCmd, Key::RCmd]
    }
}

/// Whether a keybinding has any of some keys.
pub open spec fn has_any(binding: Seq<Key>, keys: Seq<Key>) -> bool {
    exists|i: int| 0 <= i < keys.len() && binding.contains(#[trigger] keys[i])
}

/// Whether a modifier is down that the keybinding does not ask for, on either side.
pub open spec fn has_extra_modifier(binding: Seq<Key>, down: Seq<Key>) -> bool {
    exists|m: int|
        0 <= m < 4 && !has_any(binding, #[trigger] modifier_keys(m)) && down.contains(
            modifier_keys(m)[0],
        )
}

/// The keybinding that a pressed key sets off: the longest that is pressed, unless another
/// modifier is down as well.
pub open spec fn set_off(
    bindings: Seq<Seq<Key>>,
    pressed: Key,
    down: Seq<Key>,
) -> Option<Seq<Key>> {
    match longest_pressed(bindings, pressed, down) {
        Some(binding) if !has_extra_modifier(binding, down) => Some(binding),
        _ => None,
    }
}

fn all_pressed(binding: &Keybinding, pressed: Key, down: &Vec<Key>) -> (res: bool)
    ensures
        res == is_pressed(binding@, pressed, down@),
{
    let keys = binding.keys();
    for i in 0..keys.len()
        invariant
            keys@ == binding@,
            forall|k: int|
                0 <= k < i ==> #[trigger] keys@[k] == pressed || down@.contains(keys@[k]),
    {
        if keys[i] != pressed && !has_key(down, keys[i]) {
            assert(binding@[i as int] != pressed && !down@.contains(binding@[i as int]));
            return false;
        }
    }
    true
}

fn keys_of_modifier(modifier: usize) -> (res: Vec<Key>)
    requires
        modifier < 4,
    ensures
        res@ == modifier_keys(modifier as int),
{
    let mut res: Vec<Key> = Vec::new();
    if modifier == 0 {
        res.push(Key::Shift);
        res.push(Key::LShift);
        res.push(Key::RShift);
    } else if modifier == 1 {
        res.push(Key::Ctrl);
        res.push(Key::LCtrl);
        res.push(Key::RCtrl);
    } else if modifier == 2 {
        res.push(Key::Alt);
        res.push(Key::LAlt);
        res.push(Key::RAlt);
    } else {
        res.push(Key::Win);
        res.push(Key::LWin);
        res.push(Key::RWin);
        res.push(Key::Cmd);
        res.push(Key::LCmd);
        res.push(Key::RCmd);
    }
    assert(res@ =~= modifier_keys(modifier as int));
    res
}

fn holds_any(binding: &Keybinding, keys: &Vec<Key>) -> (res: bool)
    ensures
        res == has_any(binding@, keys@),
{
    for i in 0..keys.len()
        invariant
            forall|k: int| 0 <= k < i ==> !binding@.contains(#[trigger] keys@[k]),
    {
        if binding.holds(keys[i]) {
            assert(binding@.contains(keys@[i as int]));
            return true;
        }
    }
    false
}

fn other_modifier_down(binding: &Keybinding, down: &Vec<Key>) -> (res: bool)
    ensures
        res == has_extra_modifier(binding@, down@),
{
    for m in 0..4usize
        invariant
            forall|k: int|
                0 <= k < m ==> has_any(binding@, #[trigger] modifier_keys(k)) || !down@.contains(
                    modifier_keys(k)[0],
                ),
    {
        let keys = keys_of_modifier(m);
        if !holds_any(binding, &keys) && has_key(down, keys[0]) {
            assert(!has_any(binding@, modifier_keys(m as int)));
            return true;
        }
    }
    false
}

/// What comes of a key event.
#[derive(Debug)]
pub struct KeyOutcome {
    /// Whether the key is kept from other programs.
    pub handled: bool,
    /// The keybinding to report.
    pub event: Option<Keybinding>,
}

/// The keybindings that are listened for, and the one that is held.
#[derive(Debug)]
pub struct KeybindingListener {
    groups: Vec<KeyGroup>,
    continuous: ContinuousBindings,
    enabled: bool,
}

/// The state of a listener.
pub struct ListenerView {
    /// The keybindings that each key sets off.
    pub triggered: spec_fn(Key) -> Seq<Seq<Key>>,
    pub continuous: Seq<Seq<Key>>,
    pub held: Option<Seq<Key>>,
    pub enabled: bool,
}

impl View for KeybindingListener {
    type V = ListenerView;

    closed spec fn view(&self) -> ListenerView {
        ListenerView {
            triggered: |key: Key| grouped_under(self.groups@, key),
            continuous: all_keys(self.continuous.bindings@),
            held: maybe_keys(self.continuous.held),
            enabled: self.enabled,
        }
    }
}

/// Which keybindings each key sets off.
pub open spec fn by_trigger(keybindings: Seq<Keybinding>) -> spec_fn(Key) -> Seq<Seq<Key>> {
    |key: Key| triggered_by(all_keys(keybindings), key)
}

/// What a key event does to a listener: the new state, whether the key is kept from other
/// programs, and the keybinding to report.
pub open spec fn key_event(
    listener: ListenerView,
    key: Key,
    is_keypress: bool,
    down: Seq<Key>,
) -> (ListenerView, bool, Option<Seq<Key>>) {
    if !is_keypress {
        (
            ListenerView {
                held: match listener.held {
                    Some(keys) if !keys.contains(key) => Some(keys),
                    _ => None,
                },
                ..listener
            },
            false,
            None,
        )
    } else if !listener.enabled {
        (listener, false, None)
    } else {
        match set_off((listener.triggered)(key), key, down) {
            None => (listener, false, None),
            Some(binding) => if listener.continuous.contains(binding) {
                (ListenerView { held: Some(binding), ..listener }, true, None)
            } else {
                (ListenerView { held: None, ..listener }, true, Some(binding))
            },
        }
    }
}

/// The keys that stand for the four modifiers.
pub open spec fn modifiers() -> Seq<Key> {
    seq![Key::Shift, Key::Ctrl, Key::Alt, Key::Win]
}

/// The keys of some keybindings, one after the other.
pub open spec fn joined(bindings: Seq<Seq<Key>>) -> Seq<Key>
    decreases bindings.len(),
{
    if bindings.len() == 0 {
        Seq::empty()
    } else {
        joined(bindings.drop_last()) + bindings.last()
    }
}

/// The keys whose state counts for some keybindings.
pub open spec fn queried(bindings: Seq<Seq<Key>>) -> Seq<Key> {
    modifiers() + joined(bindings)
}

impl KeybindingListener {
    /// Whether all keybindings have keys.
    pub closed spec fn wf(&self) -> bool {
        groups_wf(self.groups@)
    }

    /// Listens for some keybindings, none of them continuous.
    pub fn new(keybindings: &Vec<Keybinding>) -> (res: KeybindingListener)
        requires
            all_wf(keybindings@),
        ensures
            res.wf(),
            res@.triggered == by_trigger(keybindings@),
            res@.continuous == Seq::<Seq<Key>>::empty(),
            res@.held is None,
            res@.enabled,
    {
        let groups = create_keybinding_map(keybindings);
        let bindings: Vec<Keybinding> = Vec::new();
        let res = KeybindingListener {
            groups,
            continuous: ContinuousBindings { bindings, held: None },
            enabled: true,
        };
        assert(res@.triggered =~= by_trigger(keybindings@));
        assert(res@.continuous =~= Seq::<Seq<Key>>::empty());
        res
    }

    /// Sets which keybindings are continuous. Nothing is held from then on.
    pub fn set_continuous_bindings(&mut self, bindings: Vec<Keybinding>)
        requires
            old(self).wf(),
        ensures
            final(self).wf(),
            final(self)@ == (ListenerView {
                continuous: all_keys(bindings@),
                held: None,
                ..old(self)@
            }),
    {
        self.continuous = ContinuousBindings { bindings, held: None };
    }

    /// The continuous keybinding that is held, while the listener is enabled.
    pub fn held_continuous_binding(&self) -> (res: Option<Keybinding>)
        ensures
            maybe_keys(res) == (if self@.enabled {
                self@.held
            } else {
                None
            }),
    {
        if !self.enabled {
            return None;
        }
        match &self.continuous.held {
            Some(binding) => Some(binding.copy()),
            None => None,
        }
    }

    /// Listens for other keybindings.
    pub fn update(&mut self, keybindings: &Vec<Keybinding>)
        requires
            old(self).wf(),
            all_wf(keybindings@),
        ensures
            final(self).wf(),
            final(self)@ == (ListenerView { triggered: by_trigger(keybindings@), ..old(self)@ }),
    {
        self.groups = create_keybinding_map(keybindings);
        assert(self@.triggered =~= by_trigger(keybindings@));
    }

    /// Enables or disables the listener.
    pub fn enable(&mut self, enabled: bool)
        requires
            old(self).wf(),
        ensures
            final(self).wf(),
            final(self)@ == (ListenerView { enabled, ..old(self)@ }),
    {
        self.enabled = enabled;
    }

    /// The keys whose state counts when a key is pressed: the modifiers, and the keys of the
    /// keybindings that it can set off.
    pub fn keys_to_query(&self, key: Key) -> (res: Vec<Key>)
        requires
            self.wf(),
        ensures
            res@ == queried((self@.triggered)(key)),
    {
        let mut res: Vec<Key> = Vec::new();
        res.push(Key::Shift);
        res.push(Key::Ctrl);
        res.push(Key::Alt);
        res.push(Key::Win);
        let ghost start = res@;
        proof {
            assert(start =~= modifiers());
            lemma_not_grouped_unless(self.groups@, key);
        }
        if let Some(g) = find_group(&self.groups, key) {
            proof {
                lemma_grouped_under(self.groups@, g as int);
            }
            let bindings = &self.groups[g].bindings;
            let ghost all = all_keys(bindings@);
            assert(all.take(0) =~= Seq::<Seq<Key>>::empty());
            assert(res@ =~= start + joined(all.take(0)));
            for i in 0..bindings.len()
                invariant
                    all == all_keys(bindings@),
                    res@ == start + joined(all.take(i as int)),
            {
                let keys = bindings[i].keys();
                let ghost before = res@;
                for j in 0..keys.len()
                    invariant
                        res@ == before + keys@.take(j as int),
                {
                    res.push(keys[j]);
                    assert(res@ =~= before + keys@.take(j + 1));
                }
                proof {
                    assert(keys@.take(keys@.len() as int) =~= keys@);
                    assert(all.take(i + 1).drop_last() =~= all.take(i as int));
                    assert(all.take(i + 1).last() == keys@);
                    assert(res@ =~= start + joined(all.take(i + 1)));
                }
            }
            assert(all.take(bindings.len() as int) =~= all);
        } else {
            assert(res@ =~= start + joined(Seq::empty()));
        }
        res
    }

    /// Takes in that a key was pressed or released. `down` holds the keys that are down at that
    /// moment, as far as they count.
    pub fn handle_key_event(&mut self, key: Key, is_keypress: bool, down: &Vec<Key>) -> (res:
        KeyOutcome)
        requires
            old(self).wf(),
        ensures
            final(self).wf(),
            (final(self)@, res.handled, maybe_keys(res.event)) == key_event(
                old(self)@,
                key,
                is_keypress,
                down@,
            ),
    {
        if !is_keypress {
            self.continuous.release(key);
            return KeyOutcome { handled: false, event: None };
        }
        if !self.enabled {
            return KeyOutcome { handled: false, event: None };
        }
        proof {
            lemma_not_grouped_unless(self.groups@, key);
        }
        let g = match find_group(&self.groups, key) {
            Some(g) => g,
            None => {
                return KeyOutcome { handled: false, event: None };
            },
        };
        proof {
            lemma_grouped_under(self.groups@, g as int);
        }
        let longest = match find_longest(&self.groups[g].bindings, key, down) {
            Some(longest) => longest,
            None => {
                return KeyOutcome { handled: false, event: None };
            },
        };
        if other_modifier_down(&longest, down) {
            return KeyOutcome { handled: false, event: None };
        }
        if self.continuous.press(&longest) {
            KeyOutcome { handled: true, event: None }
        } else {
            KeyOutcome { handled: true, event: Some(longest) }
        }
    }
}

proof fn lemma_not_grouped_unless(groups: Seq<KeyGroup>, key: Key)
    ensures
        (forall|i: int| 0 <= i < groups.len() ==> (#[trigger] groups[i]).key != key)
            ==> grouped_under(groups, key) == Seq::<Seq<Key>>::empty(),
{
    if forall|i: int| 0 <= i < groups.len() ==> (#[trigger] groups[i]).key != key {
        lemma_not_grouped(groups, key);
    }
}

fn find_longest(bindings: &Vec<Keybinding>, pressed: Key, down: &Vec<Key>) -> (res: Option<
    Keybinding,
>)
    ensures
        maybe_keys(res) == longest_pressed(all_keys(bindings@), pressed, down@),
{
    let ghost keys = all_keys(bindings@);
    let mut best: Option<usize> = None;
    assert(keys.take(0) =~= Seq::<Seq<Key>>::empty());
    for i in 0..bindings.len()
        invariant
            keys == all_keys(bindings@),
            best matches Some(b) ==> b < bindings.len(),
            longest_pressed(keys.take(i as int), pressed, down@) == (match best {
                Some(b) => Some(keys[b as int]),
                None => None,
            }),
    {
        assert(keys.take(i + 1).drop_last() =~= keys.take(i as int));
        assert(keys.take(i + 1).last() == bindings@[i as int]@);
        if all_pressed(&bindings[i], pressed, down) {
            let keep: bool = match best {
                Some(b) => bindings[b].keys().len() > bindings[i].keys().len(),
                None => false,
            };
            if !keep {
                best = Some(i);
            }
        }
    }
    assert(keys.take(bindings.len() as int) =~= keys);
    match best {
        Some(b) => Some(bindings[b].copy()),
        None => None,
    }
}

/// Repeats of a continuous keybinding change nothing, and it is held until one of its keys is
/// released.
pub proof fn repeats_do_not_accumulate(listener: ListenerView, key: Key, down: Seq<Key>)
    requires
        listener.enabled,
        set_off((listener.triggered)(key), key, down) matches Some(binding)
            && listener.continuous.contains(binding) && binding.contains(key),
    ensures
        ({
            let binding = set_off((listener.triggered)(key), key, down)->0;
            let once = key_event(listener, key, true, down);
            let twice = key_event(once.0, key, true, down);
            let released = key_event(twice.0, key, false, down);
            &&& once.0.held == Some(binding)
            &&& once.1
            &&& once.2 is None
            &&& twice == once
            &&& released.0.held is None
        }),
{
}

proof fn lemma_joined_holds(bindings: Seq<Seq<Key>>, i: int, j: int)
    requires
        0 <= i < bindings.len(),
        0 <= j < bindings[i].len(),
    ensures
        joined(bindings).contains(bindings[i][j]),
    decreases bindings.len(),
{
    let front = joined(bindings.drop_last());
    let x = bindings[i][j];
    if i == bindings.len() - 1 {
        assert(joined(bindings)[front.len() + j] == x);
    } else {
        lemma_joined_holds(bindings.drop_last(), i, j);
        let k = choose|k: int| 0 <= k < front.len() && front[k] == x;
        assert(joined(bindings)[k] == x);
    }
}

/// Whether two sets of keys that are down look alike where it counts.
pub open spec fn alike(keys: Seq<Key>, one: Seq<Key>, other: Seq<Key>) -> bool {
    forall|k: int| 0 <= k < keys.len() ==> one.contains(#[trigger] keys[k]) == other.contains(keys[k])
}

proof fn lemma_longest_alike(
    bindings: Seq<Seq<Key>>,
    some: Seq<Seq<Key>>,
    pressed: Key,
    one: Seq<Key>,
    other: Seq<Key>,
)
    requires
        alike(joined(bindings), one, other),
        some.len() <= bindings.len(),
        some == bindings.take(some.len() as int),
    ensures
        longest_pressed(some, pressed, one) == longest_pressed(some, pressed, other),
    decreases some.len(),
{
    if some.len() > 0 {
        let i = some.len() - 1;
        assert(some.drop_last() =~= bindings.take(i));
        lemma_longest_alike(bindings, some.drop_last(), pressed, one, other);
        let binding = some.last();
        assert(binding == bindings[i]);
        assert forall|j: int| 0 <= j < binding.len() implies one.contains(#[trigger] binding[j])
            == other.contains(binding[j]) by {
            lemma_joined_holds(bindings, i, j);
            let all = joined(bindings);
            let k = choose|k: int| 0 <= k < all.len() && all[k] == binding[j];
            assert(one.contains(all[k]) == other.contains(all[k]));
        }
        assert(is_pressed(binding, pressed, one) == is_pressed(binding, pressed, other));
    }
}

/// What a pressed key does depends on no other keys than those that are asked for.
pub proof fn queried_keys_decide(
    listener: ListenerView,
    key: Key,
    one: Seq<Key>,
    other: Seq<Key>,
)
    requires
        alike(queried((listener.triggered)(key)), one, other),
    ensures
        key_event(listener, key, true, one) == key_event(listener, key, true, other),
{
    let bindings = (listener.triggered)(key);
    let all = queried(bindings);
    let inner = joined(bindings);
    assert forall|k: int| 0 <= k < inner.len() implies one.contains(#[trigger] inner[k])
        == other.contains(inner[k]) by {
        assert(all[k + 4] == inner[k]);
        assert(one.contains(all[k + 4]) == other.contains(all[k + 4]));
    }
    assert(bindings =~= bindings.take(bindings.len() as int));
    lemma_longest_alike(bindings, bindings, key, one, other);
    assert forall|m: int| 0 <= m < 4 implies one.contains(#[trigger] modifier_keys(m)[0])
        == other.contains(modifier_keys(m)[0]) by {
        assert(all[m] == modifier_keys(m)[0]);
        assert(one.contains(all[m]) == other.contains(all[m]));
    }
    if let Some(binding) = longest_pressed(bindings, key, one) {
        if has_extra_modifier(binding, one) {
            let m = choose|m: int|
                0 <= m < 4 && !has_any(binding, #[trigger] modifier_keys(m)) && one.contains(
                    modifier_keys(m)[0],
                );
            assert(other.contains(modifier_keys(m)[0]));
        }
        if has_extra_modifier(binding, other) {
            let m = choose|m: int|
                0 <= m < 4 && !has_any(binding, #[trigger] modifier_keys(m)) && other.contains(
                    modifier_keys(m)[0],
                );
            assert(one.contains(modifier_keys(m)[0]));
        }
    }
}

/// A disabled listener reports nothing, keeps no key and changes nothing when keys are pressed.
pub proof fn disabled_listeners_let_keys_pass(listener: ListenerView, key: Key, down: Seq<Key>)
    requires
        !listener.enabled,
    ensures
        key_event(listener, key, true, down) == (listener, false, None::<Seq<Key>>),
{
}

/// A key sets off just those keybindings that end with it.
pub proof fn bindings_are_set_off_by_their_last_key(
    bindings: Seq<Seq<Key>>,
    key: Key,
    binding: Seq<Key>,
)
    ensures
        triggered_by(bindings, key).contains(binding) <==> bindings.contains(binding)
            && binding.last() == key,
    decreases bindings.len(),
{
    if bindings.len() > 0 {
        let front = bindings.drop_last();
        let some = triggered_by(front, key);
        let all = triggered_by(bindings, key);
        bindings_are_set_off_by_their_last_key(front, key, binding);
        if all.contains(binding) {
            let i = choose|i: int| 0 <= i < all.len() && all[i] == binding;
            if i < some.len() {
                assert(some[i] == binding);
                let j = choose|j: int| 0 <= j < front.len() && front[j] == binding;
                assert(bindings[j] == binding);
            } else {
                assert(bindings[bindings.len() - 1] == binding);
            }
        }
        if bindings.contains(binding) && binding.last() == key {
            let j = choose|j: int| 0 <= j < bindings.len() && bindings[j] == binding;
            if j < front.len() {
                assert(front[j] == binding);
                let i = choose|i: int| 0 <= i < some.len() && some[i] == binding;
                assert(all[i] == binding);
            } else {
                assert(all[all.len() - 1] == binding);
            }
        }
    }
}

proof fn lemma_longest(bindings: Seq<Seq<Key>>, pressed: Key, down: Seq<Key>)
    ensures
        longest_pressed(bindings, pressed, down) matches Some(longest) ==> {
            &&& bindings.contains(longest)
            &&& forall|i: int|
                0 <= i < longest.len() ==> #[trigger] longest[i] == pressed || down.contains(
                    longest[i],
                )
            &&& forall|k: int|
                0 <= k < bindings.len() && is_pressed(#[trigger] bindings[k], pressed, down)
                    ==> bindings[k].len() <= longest.len()
        },
        longest_pressed(bindings, pressed, down) is None ==> forall|k: int|
            0 <= k < bindings.len() ==> !is_pressed(#[trigger] bindings[k], pressed, down),
    decreases bindings.len(),
{
    if bindings.len() > 0 {
        let front = bindings.drop_last();
        lemma_longest(front, pressed, down);
        assert(bindings[bindings.len() - 1] == bindings.last());
        if let Some(longest) = longest_pressed(bindings, pressed, down) {
            if longest_pressed(front, pressed, down) == Some(longest) {
                let j = choose|j: int| 0 <= j < front.len() && front[j] == longest;
                assert(bindings[j] == longest);
            }
            assert forall|k: int|
                0 <= k < bindings.len() && is_pressed(
                    #[trigger] bindings[k],
                    pressed,
                    down,
                ) implies bindings[k].len() <= longest.len() by {
                if k < front.len() {
                    assert(front[k] == bindings[k]);
                    assert(is_pressed(front[k], pressed, down));
                }
            }
        } else {
            assert forall|k: int| 0 <= k < bindings.len() implies !is_pressed(
                #[trigger] bindings[k],
                pressed,
                down,
            ) by {
                if k < front.len() {
                    assert(front[k] == bindings[k]);
                }
            }
        }
    }
}

/// Whether a keybinding asks for every modifier that is down, on whatever side of the keyboard.
pub open spec fn asks_for_all_modifiers(binding: Seq<Key>, down: Seq<Key>) -> bool {
    &&& down.contains(Key::Shift) ==> binding.contains(Key::Shift) || binding.contains(Key::LShift)
        || binding.contains(Key::RShift)
    &&& down.contains(Key::Ctrl) ==> binding.contains(Key::Ctrl) || binding.contains(Key::LCtrl)
        || binding.contains(Key::RCtrl)
    &&& down.contains(Key::Alt) ==> binding.contains(Key::Alt) || binding.contains(Key::LAlt)
        || binding.contains(Key::RAlt)
    &&& down.contains(Key::Win) ==> binding.contains(Key::Win) || binding.contains(Key::LWin)
        || binding.contains(Key::RWin) || binding.contains(Key::Cmd) || binding.contains(Key::LCmd)
        || binding.contains(Key::RCmd)
}

proof fn lemma_modifiers(binding: Seq<Key>, down: Seq<Key>)
    ensures
        has_extra_modifier(binding, down) <==> !asks_for_all_modifiers(binding, down),
{
    assert forall|m: int| 0 <= m < 4 implies (has_any(binding, #[trigger] modifier_keys(m)) <==> (
    exists|i: int|
        0 <= i < modifier_keys(m).len() && binding.contains(#[trigger] modifier_keys(m)[i]))) by {}
    let a = modifier_keys(0);
    let b = modifier_keys(1);
    let c = modifier_keys(2);
    let d = modifier_keys(3);
    assert(a[0] == Key::Shift && a[1] == Key::LShift && a[2] == Key::RShift);
    assert(b[0] == Key::Ctrl && b[1] == Key::LCtrl && b[2] == Key::RCtrl);
    assert(c[0] == Key::Alt && c[1] == Key::LAlt && c[2] == Key::RAlt);
    assert(d[0] == Key::Win && d[1] == Key::LWin && d[2] == Key::RWin && d[3] == Key::Cmd && d[4]
        == Key::LCmd && d[5] == Key::RCmd);
    if asks_for_all_modifiers(binding, down) && has_extra_modifier(binding, down) {
        let m = choose|m: int|
            0 <= m < 4 && !has_any(binding, #[trigger] modifier_keys(m)) && down.contains(
                modifier_keys(m)[0],
            );
        assert(m == 0 || m == 1 || m == 2 || m == 3);
    }
}

/// A key that is pressed is kept from other programs exactly when it sets off a keybinding. That is
/// one that ends with the key and whose keys are all down, the longest of those, as long as no
/// modifier is down that it does not ask for. It is reported once, or held if it is continuous.
pub proof fn the_longest_pressed_binding_is_set_off(
    listener: ListenerView,
    key: Key,
    down: Seq<Key>,
)
    requires
        listener.enabled,
    ensures
        ({
            let bindings = (listener.triggered)(key);
            let (after, handled, event) = key_event(listener, key, true, down);
            let found = if event is Some {
                event
            } else {
                after.held
            };
            &&& handled ==> {
                &&& found matches Some(binding)
                &&& bindings.contains(binding)
                &&& forall|i: int|
                    0 <= i < binding.len() ==> #[trigger] binding[i] == key || down.contains(
                        binding[i],
                    )
                &&& forall|k: int|
                    0 <= k < bindings.len() && is_pressed(#[trigger] bindings[k], key, down)
                        ==> bindings[k].len() <= binding.len()
                &&& asks_for_all_modifiers(binding, down)
                &&& listener.continuous.contains(binding) ==> event is None && after.held == Some(
                    binding,
                )
                &&& !listener.continuous.contains(binding) ==> event == Some(binding)
                    && after.held is None
            }
            &&& !handled ==> event is None && after == listener
            &&& forall|k: int|
                0 <= k < bindings.len() && is_pressed(#[trigger] bindings[k], key, down) && (
                forall|j: int|
                    0 <= j < bindings.len() && is_pressed(#[trigger] bindings[j], key, down)
                        ==> asks_for_all_modifiers(bindings[j], down)) ==> handled
            &&& after.triggered == listener.triggered
            &&& after.continuous == listener.continuous
            &&& after.enabled
        }),
{
    let bindings = (listener.triggered)(key);
    lemma_longest(bindings, key, down);
    if let Some(longest) = longest_pressed(bindings, key, down) {
        lemma_modifiers(longest, down);
        let j = choose|j: int| 0 <= j < bindings.len() && bindings[j] == longest;
        assert(is_pressed(bindings[j], key, down));
    }
}

/// A key that is released is never kept from other programs and reports nothing. It ends the
/// keybinding that is held if that has the key, and no other.
pub proof fn released_keys_end_what_they_hold(listener: ListenerView, key: Key, down: Seq<Key>)
    ensures
        ({
            let (after, handled, event) = key_event(listener, key, false, down);
            &&& !handled && event is None
            &&& listener.held matches Some(keys) ==> {
                &&& keys.contains(key) ==> after.held is None
                &&& !keys.contains(key) ==> after.held == Some(keys)
            }
            &&& listener.held is None ==> after.held is None
            &&& after.triggered == listener.triggered
            &&& after.continuous == listener.continuous
            &&& after.enabled == listener.enabled
        }),
{
}

} // verus!
