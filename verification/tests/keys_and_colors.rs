use glazewm::color::Color;
use glazewm::errors::WmError;
use glazewm::keybinding::{
    create_keybinding_map, has_key, ContinuousBindings, Key, Keybinding, KeybindingListener,
};
use glazewm::wm_state::{disable_binding_mode, BindingModeConfig, WmEvent, WmState};

fn binding(keys: &[Key]) -> Keybinding {
    Keybinding::new(keys.to_vec()).unwrap()
}

#[test]
fn autorepeats_do_not_accumulate_and_release_stops_immediately() {
    let binding = Keybinding::new(vec![Key::Right]).unwrap();
    let mut state = ContinuousBindings { bindings: vec![binding.clone()], held: None };
    for _ in 0..1000 {
        assert!(state.press(&binding));
    }
    assert_eq!(state.held, Some(binding));
    state.release(Key::Right);
    assert_eq!(state.held, None);
}

#[test]
fn reversing_replaces_held_direction_and_mode_exit_cancels_it() {
    let left = Keybinding::new(vec![Key::Left]).unwrap();
    let right = Keybinding::new(vec![Key::Right]).unwrap();
    let mut state =
        ContinuousBindings { bindings: vec![left.clone(), right.clone()], held: None };
    state.press(&left);
    state.press(&right);
    state.release(Key::Left);
    assert_eq!(state.held, Some(right));
    assert!(!state.press(&Keybinding::new(vec![Key::Escape]).unwrap()));
    assert_eq!(state.held, None);
}

#[test]
fn a_keybinding_needs_a_key() {
    assert_eq!(Keybinding::new(vec![]), Err(WmError::InvalidKeybinding));
    let found = binding(&[Key::LAlt, Key::H]);
    assert_eq!(*found.trigger_key(), Key::H);
    assert_eq!(found.keys(), &[Key::LAlt, Key::H]);
    assert!(has_key(&found.keys().to_vec(), Key::LAlt));
    assert!(!has_key(&found.keys().to_vec(), Key::RAlt));
}

#[test]
fn keybindings_are_grouped_by_the_key_that_sets_them_off() {
    let all = vec![
        binding(&[Key::Alt, Key::H]),
        binding(&[Key::L]),
        binding(&[Key::Alt, Key::Shift, Key::H]),
    ];
    let groups = create_keybinding_map(&all);
    assert_eq!(groups.len(), 2);
    for group in &groups {
        let expected = if group.key == Key::H { 2 } else { 1 };
        assert_eq!(group.bindings.len(), expected);
        for found in &group.bindings {
            assert_eq!(*found.trigger_key(), group.key);
        }
    }
}

#[test]
fn the_longest_keybinding_that_is_down_is_reported() {
    let short = binding(&[Key::Alt, Key::H]);
    let long = binding(&[Key::Alt, Key::Shift, Key::H]);
    let mut listener = KeybindingListener::new(&vec![short.clone(), long.clone()]);
    let outcome = listener.handle_key_event(Key::H, true, &vec![Key::Alt, Key::H]);
    assert!(outcome.handled);
    assert_eq!(outcome.event, Some(short));
    let down = vec![Key::Alt, Key::Shift, Key::H];
    let outcome = listener.handle_key_event(Key::H, true, &down);
    assert_eq!(outcome.event, Some(long));
    let outcome = listener.handle_key_event(Key::H, true, &vec![Key::H]);
    assert!(!outcome.handled);
    assert_eq!(outcome.event, None);
    let outcome = listener.handle_key_event(Key::L, true, &vec![Key::Alt, Key::L]);
    assert!(!outcome.handled);
}

#[test]
fn a_disabled_listener_lets_all_keys_pass() {
    let right = binding(&[Key::Right]);
    let mut listener = KeybindingListener::new(&vec![right.clone()]);
    listener.enable(false);
    let outcome = listener.handle_key_event(Key::Right, true, &vec![Key::Right]);
    assert!(!outcome.handled);
    assert_eq!(outcome.event, None);
    listener.enable(true);
    let outcome = listener.handle_key_event(Key::Right, true, &vec![Key::Right]);
    assert_eq!(outcome.event, Some(right));
}

#[test]
fn a_held_keybinding_is_known_until_it_is_let_go() {
    let right = binding(&[Key::Right]);
    let mut listener = KeybindingListener::new(&vec![right.clone()]);
    listener.set_continuous_bindings(vec![right.clone()]);
    assert_eq!(listener.held_continuous_binding(), None);
    listener.handle_key_event(Key::Right, true, &vec![Key::Right]);
    assert_eq!(listener.held_continuous_binding(), Some(right));
    listener.handle_key_event(Key::Right, false, &vec![]);
    assert_eq!(listener.held_continuous_binding(), None);
    listener.handle_key_event(Key::Right, true, &vec![Key::Right]);
    listener.set_continuous_bindings(vec![]);
    assert_eq!(listener.held_continuous_binding(), None);
}

#[test]
fn only_keys_that_can_set_something_off_are_asked_for() {
    let all = vec![binding(&[Key::Alt, Key::H]), binding(&[Key::Ctrl, Key::Shift, Key::H])];
    let mut listener = KeybindingListener::new(&all);
    let keys = listener.keys_to_query(Key::H);
    for key in [Key::Alt, Key::Ctrl, Key::Shift] {
        assert!(keys.contains(&key));
    }
    let modifiers = vec![Key::Shift, Key::Ctrl, Key::Alt, Key::Win];
    assert_eq!(listener.keys_to_query(Key::L), modifiers);
    listener.update(&vec![binding(&[Key::L])]);
    assert!(!listener.handle_key_event(Key::H, true, &vec![Key::Alt, Key::H]).handled);
    assert!(listener.handle_key_event(Key::L, true, &vec![Key::L]).handled);
}

#[test]
fn invalid_colors_return_errors_without_panicking() {
    for value in ["", "#", "#12", "#1234567", "#zz0000", "#é12345", "1234567"] {
        assert!(Color::from_str(value).is_err(), "{value}");
    }
}

#[test]
fn hex_color_preserves_channels_and_alpha() {
    let color = Color::from_str("#12345678").unwrap();
    assert_eq!(color.to_bgr(), 0x0056_3412);
    assert_eq!(color.a, 0x78);
    assert_eq!(Color::from_str("#123456").unwrap().a, 255);
}

#[test]
fn colors_are_read_in_either_case_and_read_back() {
    let expected = Color { r: 0xab, g: 0xcd, b: 0xef, a: 0x01 };
    assert_eq!(Color::from_str("#abcdef01").unwrap(), expected);
    assert_eq!(Color::from_str("#ABCDEF01").unwrap(), expected);
    for r in [0, 1, 127, 255] {
        let color = Color { r, g: 255 - r, b: r / 2, a: 200 };
        let text = format!("#{:02x}{:02x}{:02x}{:02x}", color.r, color.g, color.b, color.a);
        assert_eq!(Color::from_str(&text).unwrap(), color);
    }
}

#[test]
fn a_binding_mode_is_switched_off_and_reported() {
    let mut state = WmState::new();
    for name in ["resize", "other", "resize"] {
        state.binding_modes.push(BindingModeConfig { name: name.to_string() });
    }
    disable_binding_mode("resize", &mut state);
    assert_eq!(state.binding_modes.len(), 1);
    assert_eq!(state.binding_modes[0].name, "other");
    assert!(state.pending_sync.needs_focused_effect_update());
    assert_eq!(state.events.len(), 1);
    match &state.events[0] {
        WmEvent::BindingModesChanged(modes) => {
            assert_eq!(modes.len(), 1);
            assert_eq!(modes[0].name, "other");
        }
    }
}
