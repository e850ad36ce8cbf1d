use octofact::game::config::GameConfig;
use octofact::game::input::{default_bindings, keycode_from_str, GameAction, InputState, KeyBind, KeyCode};

#[test]
fn test_all_actions_listed() {
    assert_eq!(GameAction::all().len(), 14);
}

#[test]
fn test_default_bindings_cover_movement() {
    let bindings = default_bindings();
    assert!(bindings.contains_key(&GameAction::MoveForward));
    assert!(bindings.contains_key(&GameAction::MoveBackward));
    assert!(bindings.contains_key(&GameAction::StrafeLeft));
    assert!(bindings.contains_key(&GameAction::StrafeRight));
    assert!(bindings.contains_key(&GameAction::CameraUp));
    assert!(bindings.contains_key(&GameAction::CameraDown));
}

#[test]
fn test_input_state_action_resolution() {
    let mut state = InputState::with_defaults();
    state.on_key_event(KeyCode::KeyW, true);
    assert!(state.is_active(GameAction::MoveForward));
    assert!(state.just_pressed(GameAction::MoveForward));

    state.end_frame();
    assert!(state.is_active(GameAction::MoveForward));
    assert!(!state.just_pressed(GameAction::MoveForward));

    state.on_key_event(KeyCode::KeyW, false);
    assert!(!state.is_active(GameAction::MoveForward));
}

#[test]
fn test_rebinding() {
    let mut state = InputState::with_defaults();
    state.rebind(GameAction::MoveForward, KeyCode::ArrowUp);

    state.on_key_event(KeyCode::KeyW, true);
    assert!(!state.is_active(GameAction::MoveForward));

    state.on_key_event(KeyCode::ArrowUp, true);
    assert!(state.is_active(GameAction::MoveForward));
}

#[test]
fn test_default_config() {
    let config = GameConfig::default();
    assert_eq!(config.graphics.render_distance, 3);
    assert_eq!(config.graphics.frame_rate_cap, 60);
    assert_eq!(config.gameplay.tiling_n, 5);
    assert!(!config.key_bindings.is_empty());
}

#[test]
fn default_bindings_count() {
    let b = default_bindings();
    assert_eq!(b.len(), 12);
    assert!(!b.contains_key(&GameAction::PlaceStructure));
    assert_eq!(b.get(&GameAction::ToggleViewMode), Some(KeyBind::new(KeyCode::Backquote)));
}

#[test]
fn action_display_names() {
    assert_eq!(GameAction::OpenSettings.display_name(), "Settings");
    assert_eq!(GameAction::ToggleViewMode.display_name(), "Toggle View");
    for a in GameAction::all() {
        assert!(!a.display_name().is_empty());
    }
}

#[test]
fn key_names_read_back() {
    for k in KeyCode::all() {
        assert_eq!(keycode_from_str(k.name()), Some(k));
        assert_eq!(KeyBind::new(k).display_name(), k.name());
    }
    assert_eq!(keycode_from_str("Backquote"), Some(KeyCode::Backquote));
    assert_eq!(keycode_from_str("F12"), Some(KeyCode::F12));
    assert_eq!(keycode_from_str("NumpadEnter"), None);
    assert_eq!(keycode_from_str(""), None);
}

#[test]
fn release_without_press_only_clears() {
    let mut state = InputState::with_defaults();
    state.on_key_event(KeyCode::KeyE, false);
    assert!(!state.is_active(GameAction::CameraDown));
    assert!(!state.just_pressed(GameAction::CameraDown));
    // an unbound key changes nothing
    state.on_key_event(KeyCode::F5, true);
    for a in GameAction::all() {
        assert!(!state.is_active(*a));
    }
}
