//! The keyboard and side-button bindings of the board.
use crate::input::SideButton;
use crate::tool::Tool;
use vstd::prelude::*;

verus! {

/// The keys the board reacts to; every other key is `Other`.
#[derive(Debug, Clone, Copy, PartialEq, Eq, Structural)]
pub enum Key {
    Backspace,
    Equals,
    Delete,
    Escape,
    Return,
    V,
    A,
    S,
    D,
    Q,
    W,
    E,
    R,
    Digit1,
    Digit2,
    Digit3,
    Digit4,
    Digit5,
    Other,
}

/// What a key press asks the board to do.
#[derive(Debug, Clone, Copy, PartialEq, Eq, Structural)]
pub enum KeyAction {
    Undo,
    Redo,
    DeleteSelected,
    ClearAll,
    ToggleFullscreen,
    Paste,
    SelectTool(Tool),
    /// Pick the pen color at this index of the palette.
    SelectColor(usize),
    /// Pick the pen width at this index of the thickness levels.
    SelectThickness(usize),
}

/// The binding of a key press, with `ctrl` telling whether a control key is
/// held: Backspace undoes, `=` redoes, Delete deletes the selection, Escape
/// clears the board, Return toggles full screen, Ctrl+V pastes, A/S/D pick
/// the pen, eraser and selection tools, Q/W/E/R the palette colors in order,
/// and 1 to 5 the thickness levels in order.
pub open spec fn key_binding(key: Key, ctrl: bool) -> Option<KeyAction> {
    match key {
        Key::Backspace => Some(KeyAction::Undo),
        Key::Equals => Some(KeyAction::Redo),
        Key::Delete => Some(KeyAction::DeleteSelected),
        Key::Escape => Some(KeyAction::ClearAll),
        Key::Return => Some(KeyAction::ToggleFullscreen),
        Key::V => if ctrl {
            Some(KeyAction::Paste)
        } else {
            None
        },
        Key::A => Some(KeyAction::SelectTool(Tool::Pen)),
        Key::S => Some(KeyAction::SelectTool(Tool::Eraser)),
        Key::D => Some(KeyAction::SelectTool(Tool::Select)),
        Key::Q => Some(KeyAction::SelectColor(0)),
        Key::W => Some(KeyAction::SelectColor(1)),
        Key::E => Some(KeyAction::SelectColor(2)),
        Key::R => Some(KeyAction::SelectColor(3)),
        Key::Digit1 => Some(KeyAction::SelectThickness(0)),
        Key::Digit2 => Some(KeyAction::SelectThickness(1)),
        Key::Digit3 => Some(KeyAction::SelectThickness(2)),
        Key::Digit4 => Some(KeyAction::SelectThickness(3)),
        Key::Digit5 => Some(KeyAction::SelectThickness(4)),
        Key::Other => None,
    }
}

/// What a key press asks the board to do, if anything.
pub fn key_action(key: Key, ctrl: bool) -> (a: Option<KeyAction>)
    ensures
        a == key_binding(key, ctrl),
{
    match key {
        Key::Backspace => Some(KeyAction::Undo),
        Key::Equals => Some(KeyAction::Redo),
        Key::Delete => Some(KeyAction::DeleteSelected),
        Key::Escape => Some(KeyAction::ClearAll),
        Key::Return => Some(KeyAction::ToggleFullscreen),
        Key::V => if ctrl {
            Some(KeyAction::Paste)
        } else {
            None
        },
        Key::A => Some(KeyAction::SelectTool(Tool::Pen)),
        Key::S => Some(KeyAction::SelectTool(Tool::Eraser)),
        Key::D => Some(KeyAction::SelectTool(Tool::Select)),
        Key::Q => Some(KeyAction::SelectColor(0)),
        Key::W => Some(KeyAction::SelectColor(1)),
        Key::E => Some(KeyAction::SelectColor(2)),
        Key::R => Some(KeyAction::SelectColor(3)),
        Key::Digit1 => Some(KeyAction::SelectThickness(0)),
        Key::Digit2 => Some(KeyAction::SelectThickness(1)),
        Key::Digit3 => Some(KeyAction::SelectThickness(2)),
        Key::Digit4 => Some(KeyAction::SelectThickness(3)),
        Key::Digit5 => Some(KeyAction::SelectThickness(4)),
        Key::Other => None,
    }
}

/// What a mouse side button asks for: pressing X1 undoes, pressing X2
/// redoes; releases do nothing.
pub fn side_button_action(button: SideButton, pressed: bool) -> (a: Option<KeyAction>)
    ensures
        a == if !pressed {
            None
        } else {
            match button {
                SideButton::X1 => Some(KeyAction::Undo),
                SideButton::X2 => Some(KeyAction::Redo),
            }
        },
{
    if !pressed {
        return None;
    }
    match button {
        SideButton::X1 => Some(KeyAction::Undo),
        SideButton::X2 => Some(KeyAction::Redo),
    }
}


/// The bindings, key by key, with or without a control key held:
/// Backspace undoes, `=` redoes, Delete deletes the selection, Escape
/// clears, Return toggles full screen, V pastes only with control; A picks
/// the pen, S the eraser and D the selection tool; Q, W, E, R pick palette
/// colors 0 to 3; 1 to 5 pick thickness levels 0 to 4; other keys do
/// nothing.
pub proof fn lemma_key_table(ctrl: bool)
    ensures
        key_binding(Key::Backspace, ctrl) == Some(KeyAction::Undo),
        key_binding(Key::Equals, ctrl) == Some(KeyAction::Redo),
        key_binding(Key::Delete, ctrl) == Some(KeyAction::DeleteSelected),
        key_binding(Key::Escape, ctrl) == Some(KeyAction::ClearAll),
        key_binding(Key::Return, ctrl) == Some(KeyAction::ToggleFullscreen),
        key_binding(Key::V, true) == Some(KeyAction::Paste),
        key_binding(Key::V, false) == None::<KeyAction>,
        key_binding(Key::A, ctrl) == Some(KeyAction::SelectTool(Tool::Pen)),
        key_binding(Key::S, ctrl) == Some(KeyAction::SelectTool(Tool::Eraser)),
        key_binding(Key::D, ctrl) == Some(KeyAction::SelectTool(Tool::Select)),
        key_binding(Key::Q, ctrl) == Some(KeyAction::SelectColor(0)),
        key_binding(Key::W, ctrl) == Some(KeyAction::SelectColor(1)),
        key_binding(Key::E, ctrl) == Some(KeyAction::SelectColor(2)),
        key_binding(Key::R, ctrl) == Some(KeyAction::SelectColor(3)),
        key_binding(Key::Digit1, ctrl) == Some(KeyAction::SelectThickness(0)),
        key_binding(Key::Digit2, ctrl) == Some(KeyAction::SelectThickness(1)),
        key_binding(Key::Digit3, ctrl) == Some(KeyAction::SelectThickness(2)),
        key_binding(Key::Digit4, ctrl) == Some(KeyAction::SelectThickness(3)),
        key_binding(Key::Digit5, ctrl) == Some(KeyAction::SelectThickness(4)),
        key_binding(Key::Other, ctrl) == None::<KeyAction>,
{
}

/// Every tool can be picked from the keyboard, each by exactly one key,
/// and the control key does not change which.
pub proof fn lemma_each_tool_has_one_key(tool: Tool, ctrl: bool)
    ensures
        exists|k: Key| #[trigger] key_binding(k, ctrl) == Some(KeyAction::SelectTool(tool)),
        forall|k1: Key, k2: Key|
            key_binding(k1, ctrl) == Some(KeyAction::SelectTool(tool)) && key_binding(k2, ctrl) == Some(
                KeyAction::SelectTool(tool),
            ) ==> k1 == k2,
{
    match tool {
        Tool::Pen => assert(key_binding(Key::A, ctrl) == Some(KeyAction::SelectTool(tool))),
        Tool::Eraser => assert(key_binding(Key::S, ctrl) == Some(KeyAction::SelectTool(tool))),
        Tool::Select => assert(key_binding(Key::D, ctrl) == Some(KeyAction::SelectTool(tool))),
    }
}

} // verus!
