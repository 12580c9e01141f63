use necrofactory::input::{InputAction, InputKind, InputMap, InputState, PhysicalInput};
use necrofactory::modding::types::{DefHandle, DefId};

fn h(n: u32) -> DefHandle<InputAction> {
    DefHandle::new(n)
}

#[test]
fn press_and_release() {
    let mut s = InputState::new();
    assert!(!s.pressed(h(1)));
    s.press(h(1));
    assert!(s.pressed(h(1)));
    assert!(s.just_pressed(h(1)));
    s.clear();
    assert!(s.pressed(h(1)));
    assert!(!s.just_pressed(h(1)));
    // Pressing a held action does not count as a new press.
    s.press(h(1));
    assert!(!s.just_pressed(h(1)));
    s.release(h(1));
    assert!(!s.pressed(h(1)));
    assert!(s.just_released(h(1)));
    s.clear();
    // Releasing an action that is not held does nothing.
    s.release(h(1));
    assert!(!s.just_released(h(1)));
}

#[test]
fn axes() {
    let mut s = InputState::default();
    assert_eq!(s.axis(h(1), h(2)), 0);
    s.press(h(1));
    assert_eq!(s.axis(h(1), h(2)), 1);
    s.press(h(2));
    assert_eq!(s.axis(h(1), h(2)), 0);
    s.release(h(1));
    assert_eq!(s.axis(h(1), h(2)), -1);
    s.press(h(3));
    assert_eq!(s.vec2(h(3), h(4), h(1), h(2)), (1, -1));
}

#[test]
fn bindings_update_state() {
    let key = PhysicalInput::key(42).with_shift();
    let mut s = InputState::new();
    // Without the modifier the press does not count.
    s.update_binding(h(1), &key, true, false, key.modifiers_held(false, false, false));
    assert!(!s.pressed(h(1)));
    s.update_binding(h(1), &key, true, false, key.modifiers_held(true, false, false));
    assert!(s.pressed(h(1)));
    s.update_binding(h(1), &key, false, true, true);
    assert!(!s.pressed(h(1)));
    assert!(s.just_released(h(1)));
    let none = PhysicalInput::none();
    s.update_binding(h(2), &none, true, false, true);
    assert!(!s.pressed(h(2)));
}

#[test]
fn physical_input_builders() {
    let m = PhysicalInput::mouse(1).with_modifiers(true, false, true);
    assert_eq!(m.kind, InputKind::MouseButton(1));
    assert!(m.shift && !m.control && m.alt);
    let k = PhysicalInput::from_kind(InputKind::KeyButton(7)).with_ctrl().with_alt();
    assert!(!k.shift && k.control && k.alt);
    assert!(k.modifiers_held(false, true, true));
    assert!(!k.modifiers_held(true, true, false));
    assert_eq!(PhysicalInput::from(InputKind::Unbound), PhysicalInput::none());
}

#[test]
fn input_actions_and_map() {
    let a = InputAction::key("Jump".to_string(), 32);
    assert_eq!(a.default, PhysicalInput::key(32));
    let b = InputAction::mouse("Dig".to_string(), 0);
    assert_eq!(b.default.kind, InputKind::MouseButton(0));
    let (id, c) = InputAction::from_raw(
        &DefId::new("base").unwrap(),
        DefId::new("jump").unwrap(),
        "Jump".to_string(),
        PhysicalInput::key(32),
    );
    assert_eq!(id.to_string(), "base::jump");
    assert_eq!(c.name, "Jump");
    let mut map = InputMap::new();
    assert!(map.get(h(1)).is_none());
    map.insert(h(1), a.default);
    map.insert(h(1), b.default);
    assert_eq!(map.get(h(1)), Some(&b.default));
    assert_eq!(map.entries().len(), 1);
}

#[test]
fn input_map_entries_lists_each_binding_once() {
    let mut map = InputMap::new();
    assert!(map.entries().is_empty());
    map.insert(h(3), PhysicalInput::key(1));
    map.insert(h(5), PhysicalInput::mouse(2));
    map.insert(h(3), PhysicalInput::key(4));
    let mut entries = map.entries();
    entries.sort_by_key(|(k, _)| *k);
    assert_eq!(entries, vec![(3, PhysicalInput::key(4)), (5, PhysicalInput::mouse(2))]);
}
