//! Plain input event types, as handed to the core by the window layer.

use vstd::prelude::*;

verus! {

/// A mouse button.
#[derive(Debug, PartialEq, Eq, Hash, Clone, Copy, Structural)]
pub enum MouseButton {
    Left,
    Right,
    Middle,
    Back,
    Forward,
    Other(u16),
}

/// Whether a button went down or up.
#[derive(Debug, PartialEq, Eq, Clone, Copy, Structural)]
pub enum ButtonState {
    Pressed,
    Released,
}

/// A keyboard key, by scan position.
#[derive(Debug, PartialEq, Eq, Hash, Clone, Copy, Structural)]
pub struct KeyCode(pub u32);

/// A mouse button went down or up.
#[derive(Debug, Clone, Copy, PartialEq, Eq, Structural)]
pub struct MouseButtonEvent {
    /// The button.
    pub button: MouseButton,
    /// Down or up.
    pub state: ButtonState,
}

/// A mouse button went down or up, as delivered by the window layer.
#[derive(Debug, Clone, Copy, PartialEq, Eq, Structural)]
pub struct MouseButtonInput {
    /// The button.
    pub button: MouseButton,
    /// Down or up.
    pub state: ButtonState,
}

/// A key went down or up.
#[derive(Debug, Clone, Copy, PartialEq, Eq, Structural)]
pub struct KeyEvent {
    /// The key.
    pub button: KeyCode,
    /// Down or up.
    pub state: ButtonState,
}

/// Something happened to the mouse.
#[derive(Debug, Clone, Copy, PartialEq, Eq, Structural)]
pub enum MouseEvent {
    MouseButtonEvent(MouseButtonEvent),
    MouseMotionEvent,
    MouseWheelEvent,
}

/// Something happened on the keyboard.
#[derive(Debug, Clone, Copy, PartialEq, Eq, Structural)]
pub enum KeyboardEvent {
    KeyEvent(KeyEvent),
}

/// Any input event.
#[derive(Debug, Clone, Copy, PartialEq, Eq, Structural)]
pub enum InputEvent {
    MouseEvent(MouseEvent),
    KeyboardEvent(KeyboardEvent),
}

/// Marker for the input subsystem.
pub struct InputPlugin;

} // verus!
