use gloom_rs::input::{control_flow, Flow, InputEvent, Key, KeyState, PressedKeys, WindowSize};

fn held(keys: &PressedKeys) -> Vec<Key> {
    (0..keys.len()).map(|i| keys.get(i)).collect()
}

#[test]
fn pressing_adds_once_in_order() {
    let mut keys = PressedKeys::new();
    keys.press(Key::W);
    keys.press(Key::A);
    keys.press(Key::W);
    assert_eq!(held(&keys), vec![Key::W, Key::A]);
    assert!(keys.contains(Key::A));
    assert!(!keys.contains(Key::S));
}

#[test]
fn releasing_removes_and_keeps_order() {
    let mut keys = PressedKeys::new();
    keys.press(Key::W);
    keys.press(Key::A);
    keys.press(Key::Other(42));
    keys.release(Key::A);
    assert_eq!(held(&keys), vec![Key::W, Key::Other(42)]);
    keys.release(Key::A);
    assert_eq!(held(&keys), vec![Key::W, Key::Other(42)]);
    keys.release(Key::Other(7));
    assert_eq!(keys.len(), 2);
}

#[test]
fn press_then_release_restores() {
    let mut keys = PressedKeys::new();
    keys.apply(Key::Left, KeyState::Pressed);
    let before = held(&keys);
    keys.apply(Key::Up, KeyState::Pressed);
    keys.apply(Key::Up, KeyState::Released);
    assert_eq!(held(&keys), before);
}

#[test]
fn exit_on_close_escape_q_or_dead_renderer() {
    assert_eq!(control_flow(true, &InputEvent::CloseRequested), Flow::Exit);
    let esc = InputEvent::Keyboard { key: Key::Escape, state: KeyState::Pressed };
    assert_eq!(control_flow(true, &esc), Flow::Exit);
    let q_up = InputEvent::Keyboard { key: Key::Q, state: KeyState::Released };
    assert_eq!(control_flow(true, &q_up), Flow::Exit);
    assert_eq!(control_flow(false, &InputEvent::Other), Flow::Exit);
}

#[test]
fn wait_otherwise() {
    let w = InputEvent::Keyboard { key: Key::W, state: KeyState::Pressed };
    assert_eq!(control_flow(true, &w), Flow::Wait);
    assert_eq!(control_flow(true, &InputEvent::Resized { width: 1, height: 2 }), Flow::Wait);
    assert_eq!(control_flow(true, &InputEvent::Other), Flow::Wait);
}

#[test]
fn resize_is_seen_once() {
    let mut size = WindowSize::new(800, 600);
    assert_eq!(size.take_resize(), None);
    size.on_resized(1024, 768);
    size.on_resized(1280, 720);
    assert_eq!(size.take_resize(), Some((1280, 720)));
    assert_eq!(size.take_resize(), None);
    assert_eq!((size.width, size.height), (1280, 720));
}

#[test]
fn held_iff_last_event_pressed() {
    let events = [
        (Key::W, KeyState::Pressed),
        (Key::A, KeyState::Pressed),
        (Key::W, KeyState::Released),
        (Key::D, KeyState::Released),
        (Key::A, KeyState::Pressed),
        (Key::W, KeyState::Pressed),
        (Key::A, KeyState::Released),
    ];
    let mut keys = PressedKeys::new();
    for (key, state) in events.iter() {
        keys.apply(*key, *state);
    }
    assert_eq!(held(&keys), vec![Key::W]);
    for key in [Key::W, Key::A, Key::D, Key::S].iter() {
        let last = events.iter().rev().find(|(k, _)| k == key).map(|(_, s)| *s);
        assert_eq!(keys.contains(*key), last == Some(KeyState::Pressed));
    }
}
