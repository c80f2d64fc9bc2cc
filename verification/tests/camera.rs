use gloom_rs::camera::{camera_command, frame_toggles, Axis, CameraCommand, Sign, ViewToggles};
use gloom_rs::input::{Key, PressedKeys};

#[test]
fn key_bindings() {
    assert_eq!(camera_command(Key::A), CameraCommand::Move(Axis::X, Sign::Plus));
    assert_eq!(camera_command(Key::D), CameraCommand::Move(Axis::X, Sign::Minus));
    assert_eq!(camera_command(Key::W), CameraCommand::Move(Axis::Z, Sign::Plus));
    assert_eq!(camera_command(Key::S), CameraCommand::Move(Axis::Z, Sign::Minus));
    assert_eq!(camera_command(Key::LShift), CameraCommand::Move(Axis::Y, Sign::Plus));
    assert_eq!(camera_command(Key::Space), CameraCommand::Move(Axis::Y, Sign::Minus));
    assert_eq!(camera_command(Key::Left), CameraCommand::Yaw(Sign::Minus));
    assert_eq!(camera_command(Key::Right), CameraCommand::Yaw(Sign::Plus));
    assert_eq!(camera_command(Key::Up), CameraCommand::Pitch(Sign::Minus));
    assert_eq!(camera_command(Key::Down), CameraCommand::Pitch(Sign::Plus));
    assert_eq!(camera_command(Key::T), CameraCommand::ToggleCamera);
    assert_eq!(camera_command(Key::H), CameraCommand::ToggleHelicopters);
    assert_eq!(camera_command(Key::Escape), CameraCommand::Nothing);
    assert_eq!(camera_command(Key::Other(3)), CameraCommand::Nothing);
}

#[test]
fn toggles_flip_while_held() {
    let start = ViewToggles { toggle_camera: true, pause_heli: true };
    let mut keys = PressedKeys::new();
    assert_eq!(frame_toggles(&keys, start), start);
    keys.press(Key::W);
    keys.press(Key::T);
    let once = frame_toggles(&keys, start);
    assert_eq!(once, ViewToggles { toggle_camera: false, pause_heli: true });
    assert_eq!(frame_toggles(&keys, once), start);
    keys.press(Key::H);
    assert_eq!(frame_toggles(&keys, start), ViewToggles { toggle_camera: false, pause_heli: false });
}
