use hwboard::input::SideButton;
use hwboard::keys::{key_action, side_button_action, Key, KeyAction};
use hwboard::tool::Tool;

#[test]
fn key_bindings() {
    assert_eq!(key_action(Key::Backspace, false), Some(KeyAction::Undo));
    assert_eq!(key_action(Key::Equals, true), Some(KeyAction::Redo));
    assert_eq!(key_action(Key::Delete, false), Some(KeyAction::DeleteSelected));
    assert_eq!(key_action(Key::Escape, false), Some(KeyAction::ClearAll));
    assert_eq!(key_action(Key::Return, false), Some(KeyAction::ToggleFullscreen));
    assert_eq!(key_action(Key::V, true), Some(KeyAction::Paste));
    assert_eq!(key_action(Key::V, false), None);
    assert_eq!(key_action(Key::D, false), Some(KeyAction::SelectTool(Tool::Select)));
    assert_eq!(key_action(Key::R, false), Some(KeyAction::SelectColor(3)));
    assert_eq!(key_action(Key::Digit5, false), Some(KeyAction::SelectThickness(4)));
    assert_eq!(key_action(Key::Other, true), None);
}

#[test]
fn side_buttons_undo_and_redo_on_press() {
    assert_eq!(side_button_action(SideButton::X1, true), Some(KeyAction::Undo));
    assert_eq!(side_button_action(SideButton::X2, true), Some(KeyAction::Redo));
    assert_eq!(side_button_action(SideButton::X1, false), None);
}
