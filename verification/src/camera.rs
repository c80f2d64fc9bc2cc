//! What the held keys do to the camera each frame.
use vstd::prelude::*;
use crate::input::{Key, PressedKeys};

verus! {

/// A camera axis.
#[derive(Clone, Copy, Debug, PartialEq, Eq, Structural)]
pub enum Axis {
    X,
    Y,
    Z,
}

/// The direction of a change.
#[derive(Clone, Copy, Debug, PartialEq, Eq, Structural)]
pub enum Sign {
    Plus,
    Minus,
}

/// What one held key does in a frame.
#[derive(Clone, Copy, Debug, PartialEq, Eq, Structural)]
pub enum CameraCommand {
    /// Move the camera along an axis by the frame's movement step.
    Move(Axis, Sign),
    /// Turn the camera about the vertical axis by the frame's rotation step.
    Yaw(Sign),
    /// Tilt the camera by the frame's rotation step.
    Pitch(Sign),
    /// Switch between the camera that follows the animation and the free one.
    ToggleCamera,
    /// Switch the helicopters' animation on or off.
    ToggleHelicopters,
    /// Nothing.
    Nothing,
}

/// The key bindings: A and D move along x (plus, minus), W and S along z,
/// left shift and space along y; the left and right arrows turn (minus,
/// plus), up and down tilt (minus, plus); T switches the camera, H the
/// helicopters' animation. Other keys do nothing.
pub open spec fn binding(key: Key) -> CameraCommand {
    match key {
        Key::A => CameraCommand::Move(Axis::X, Sign::Plus),
        Key::D => CameraCommand::Move(Axis::X, Sign::Minus),
        Key::W => CameraCommand::Move(Axis::Z, Sign::Plus),
        Key::S => CameraCommand::Move(Axis::Z, Sign::Minus),
        Key::LShift => CameraCommand::Move(Axis::Y, Sign::Plus),
        Key::Space => CameraCommand::Move(Axis::Y, Sign::Minus),
        Key::Left => CameraCommand::Yaw(Sign::Minus),
        Key::Right => CameraCommand::Yaw(Sign::Plus),
        Key::Up => CameraCommand::Pitch(Sign::Minus),
        Key::Down => CameraCommand::Pitch(Sign::Plus),
        Key::T => CameraCommand::ToggleCamera,
        Key::H => CameraCommand::ToggleHelicopters,
        _ => CameraCommand::Nothing,
    }
}

/// The keys that move, turn or switch anything: A, D, W, S, left shift,
/// space, the four arrows, T and H.
pub open spec fn is_bound(key: Key) -> bool {
    ||| key == Key::A
    ||| key == Key::D
    ||| key == Key::W
    ||| key == Key::S
    ||| key == Key::LShift
    ||| key == Key::Space
    ||| key == Key::Left
    ||| key == Key::Right
    ||| key == Key::Up
    ||| key == Key::Down
    ||| key == Key::T
    ||| key == Key::H
}

/// Every key outside the bound ones (Escape, Q, and any other key) does
/// nothing to the camera, and each bound key does something of its own: no
/// two keys share a command.
pub proof fn lemma_bindings_distinct(k1: Key, k2: Key)
    ensures
        !is_bound(k1) ==> binding(k1) == CameraCommand::Nothing,
        is_bound(k1) ==> binding(k1) != CameraCommand::Nothing,
        is_bound(k1) && binding(k1) == binding(k2) ==> k1 == k2,
{
}

/// What `key` does when it is held during a frame.
pub fn camera_command(key: Key) -> (command: CameraCommand)
    ensures
        command == binding(key),
        !is_bound(key) ==> command == CameraCommand::Nothing,
{
    match key {
        Key::A => CameraCommand::Move(Axis::X, Sign::Plus),
        Key::D => CameraCommand::Move(Axis::X, Sign::Minus),
        Key::W => CameraCommand::Move(Axis::Z, Sign::Plus),
        Key::S => CameraCommand::Move(Axis::Z, Sign::Minus),
        Key::LShift => CameraCommand::Move(Axis::Y, Sign::Plus),
        Key::Space => CameraCommand::Move(Axis::Y, Sign::Minus),
        Key::Left => CameraCommand::Yaw(Sign::Minus),
        Key::Right => CameraCommand::Yaw(Sign::Plus),
        Key::Up => CameraCommand::Pitch(Sign::Minus),
        Key::Down => CameraCommand::Pitch(Sign::Plus),
        Key::T => CameraCommand::ToggleCamera,
        Key::H => CameraCommand::ToggleHelicopters,
        _ => CameraCommand::Nothing,
    }
}

/// The two switches of the helicopter scene: whether the camera follows the
/// animated heading, and whether the helicopters move along it.
#[derive(Clone, Copy, Debug, PartialEq, Eq, Structural)]
pub struct ViewToggles {
    pub toggle_camera: bool,
    pub pause_heli: bool,
}

/// Each held T flips the camera switch and each held H the animation switch,
/// once per frame.
pub open spec fn toggled(keys: Seq<Key>, toggles: ViewToggles) -> ViewToggles {
    ViewToggles {
        toggle_camera: toggles.toggle_camera != keys.contains(Key::T),
        pause_heli: toggles.pause_heli != keys.contains(Key::H),
    }
}

/// The switches after one frame with `keys` held.
pub fn frame_toggles(keys: &PressedKeys, toggles: ViewToggles) -> (next: ViewToggles)
    requires
        keys.wf(),
    ensures
        next == toggled(keys@, toggles),
        next.toggle_camera == (toggles.toggle_camera != keys@.contains(Key::T)),
        next.pause_heli == (toggles.pause_heli != keys@.contains(Key::H)),
{
    let mut next = toggles;
    let n = keys.len();
    let mut i: usize = 0;
    while i < n
        invariant
            n == keys@.len(),
            keys@.no_duplicates(),
            i <= n,
            next == toggled(keys@.take(i as int), toggles),
        decreases n - i,
    {
        let key = keys.get(i);
        proof {
            let before = keys@.take(i as int);
            let after = keys@.take(i + 1);
            assert(after =~= before.push(key));
            assert(after[i as int] == key);
            assert forall|k: Key| #[trigger] after.contains(k) == (before.contains(k) || k == key) by {
                if after.contains(k) {
                    let j = choose|j: int| 0 <= j < after.len() && after[j] == k;
                    if j < i {
                        assert(before[j] == k);
                    }
                }
                if before.contains(k) {
                    let j = choose|j: int| 0 <= j < before.len() && before[j] == k;
                    assert(after[j] == k);
                }
            }
            if before.contains(key) {
                let j = choose|j: int| 0 <= j < before.len() && before[j] == key;
                assert(keys@[j] == keys@[i as int]);
            }
        }
        match camera_command(key) {
            CameraCommand::ToggleCamera => {
                next.toggle_camera = !next.toggle_camera;
            },
            CameraCommand::ToggleHelicopters => {
                next.pause_heli = !next.pause_heli;
            },
            _ => {},
        }
        i = i + 1;
    }
    proof {
        assert(keys@.take(n as int) =~= keys@);
    }
    next
}

/// Wherever T stands among the held keys, the camera switch flips in that
/// frame, and it stays when T is not held; likewise H and the animation
/// switch. Other keys change neither switch.
pub proof fn lemma_toggles_follow_held_keys(keys: Seq<Key>, toggles: ViewToggles)
    ensures
        forall|i: int|
            0 <= i < keys.len() && keys[i] == Key::T ==> toggled(keys, toggles).toggle_camera
                != toggles.toggle_camera,
        (forall|i: int| 0 <= i < keys.len() ==> keys[i] != Key::T) ==> toggled(
            keys,
            toggles,
        ).toggle_camera == toggles.toggle_camera,
        forall|i: int|
            0 <= i < keys.len() && keys[i] == Key::H ==> toggled(keys, toggles).pause_heli
                != toggles.pause_heli,
        (forall|i: int| 0 <= i < keys.len() ==> keys[i] != Key::H) ==> toggled(
            keys,
            toggles,
        ).pause_heli == toggles.pause_heli,
{
    assert forall|i: int| 0 <= i < keys.len() && keys[i] == Key::T implies toggled(
        keys,
        toggles,
    ).toggle_camera != toggles.toggle_camera by {
        assert(keys.contains(keys[i]));
    }
    assert forall|i: int| 0 <= i < keys.len() && keys[i] == Key::H implies toggled(
        keys,
        toggles,
    ).pause_heli != toggles.pause_heli by {
        assert(keys.contains(keys[i]));
    }
}

} // verus!
