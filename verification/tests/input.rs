use midpoint_editor::input::{
    EditorInput, HistoryAction, KeyDispatch, ModifierKeys, TabNavKey, project_tab_icon,
    tab_list_navigate, welcome_tab_icon,
};

fn pressed(input: &EditorInput, key: &str) -> KeyDispatch {
    input.handle_keyboard_input(true, &key.to_string())
}

#[test]
fn ctrl_z_undoes() {
    let mut input = EditorInput::new();
    input.handle_modifiers_changed(ModifierKeys { control: true, shift: false });
    let d = pressed(&input, "z");
    assert_eq!(d.history, Some(HistoryAction::Undo));
    assert!(d.forward_to_engine);
}

#[test]
fn ctrl_shift_z_redoes() {
    let mut input = EditorInput::new();
    input.handle_modifiers_changed(ModifierKeys { control: true, shift: true });
    let d = pressed(&input, "z");
    assert_eq!(d.history, Some(HistoryAction::Redo));
    assert!(d.forward_to_engine);
}

#[test]
fn ctrl_y_redoes() {
    let mut input = EditorInput::new();
    input.handle_modifiers_changed(ModifierKeys { control: true, shift: false });
    let d = pressed(&input, "y");
    assert_eq!(d.history, Some(HistoryAction::Redo));
}

#[test]
fn plain_keys_only_forward() {
    let input = EditorInput::new();
    let d = pressed(&input, "z");
    assert_eq!(d.history, None);
    assert!(d.forward_to_engine);
    let d = pressed(&input, "w");
    assert_eq!(d.history, None);
    assert!(d.forward_to_engine);
}

#[test]
fn releases_are_ignored() {
    let mut input = EditorInput::new();
    input.handle_modifiers_changed(ModifierKeys { control: true, shift: false });
    let d = input.handle_keyboard_input(false, &"z".to_string());
    assert_eq!(d.history, None);
    assert!(!d.forward_to_engine);
}

#[test]
fn modifier_state_is_stored() {
    let mut input = EditorInput::new();
    assert!(!input.current_modifiers.control);
    input.handle_modifiers_changed(ModifierKeys { control: true, shift: true });
    assert!(input.current_modifiers.control);
    assert!(input.current_modifiers.shift);
}

#[test]
fn tab_arrows_move_within_bounds() {
    let up = tab_list_navigate(0, 7, TabNavKey::ArrowUp);
    assert_eq!(up.active, 0);
    assert!(up.stop);
    let up = tab_list_navigate(3, 7, TabNavKey::ArrowUp);
    assert_eq!(up.active, 2);
    assert!(up.stop);
    let down = tab_list_navigate(6, 7, TabNavKey::ArrowDown);
    assert_eq!(down.active, 6);
    assert!(down.stop);
    let down = tab_list_navigate(3, 7, TabNavKey::ArrowDown);
    assert_eq!(down.active, 4);
    assert!(down.stop);
}

#[test]
fn other_keys_propagate_unchanged() {
    let r = tab_list_navigate(2, 7, TabNavKey::Other);
    assert_eq!(r.active, 2);
    assert!(!r.stop);
}

#[test]
fn tab_icons_match_their_labels() {
    assert_eq!(project_tab_icon(&"Concepts".to_string()), "panorama");
    assert_eq!(project_tab_icon(&"Scene".to_string()), "cube");
    assert_eq!(project_tab_icon(&"Map".to_string()), "map");
    assert_eq!(project_tab_icon(&"Story".to_string()), "book");
    assert_eq!(project_tab_icon(&"Audio".to_string()), "faders");
    assert_eq!(project_tab_icon(&"Performance".to_string()), "speedometer");
    assert_eq!(project_tab_icon(&"Settings".to_string()), "gear");
    assert_eq!(project_tab_icon(&"Anything".to_string()), "plus");
    assert_eq!(welcome_tab_icon(&"Projects".to_string()), "folder-plus");
    assert_eq!(welcome_tab_icon(&"Settings".to_string()), "gear");
    assert_eq!(welcome_tab_icon(&"Other".to_string()), "plus");
}
