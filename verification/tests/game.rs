use rustgl::game::{Action, GameState, Key, WindowInput};

#[test]
fn new_game_runs() {
    let state = GameState::new();
    assert!(state.is_running());
}

#[test]
fn exit_ends_the_loop() {
    let mut state = GameState::new();
    state.exit();
    assert!(!state.is_running());
}

#[test]
fn close_request_ends_the_loop() {
    let mut state = GameState::new();
    assert_eq!(state.handle_window_event(&WindowInput::CloseRequested), Action::Nothing);
    assert!(!state.is_running());
}

#[test]
fn new_size_is_handed_on_to_the_viewport() {
    let mut state = GameState::new();
    assert_eq!(
        state.handle_window_event(&WindowInput::Resized { width: 800, height: 600 }),
        Action::ResizeViewport { width: 800, height: 600 }
    );
    assert!(state.is_running());
    assert_eq!(state.handle_key_presses(), Vec::<Key>::new());
}

#[test]
fn other_events_do_nothing() {
    let mut state = GameState::new();
    assert_eq!(state.handle_window_event(&WindowInput::Other), Action::Nothing);
    assert!(state.is_running());
    assert_eq!(state.handle_key_presses(), Vec::<Key>::new());
}

#[test]
fn released_keys_wait_until_they_are_handled() {
    let mut state = GameState::new();
    assert_eq!(state.handle_window_event(&WindowInput::KeyReleased(Key::Other(30))), Action::Nothing);
    assert_eq!(state.handle_window_event(&WindowInput::KeyReleased(Key::Other(48))), Action::Nothing);
    assert!(state.is_running());
    assert_eq!(state.handle_key_presses(), vec![Key::Other(30), Key::Other(48)]);
    assert!(state.is_running());
    assert_eq!(state.handle_key_presses(), Vec::<Key>::new());
}

#[test]
fn escape_ends_the_loop_when_it_is_handled() {
    let mut state = GameState::new();
    state.handle_window_event(&WindowInput::KeyReleased(Key::Other(1)));
    state.handle_window_event(&WindowInput::KeyReleased(Key::Escape));
    state.handle_window_event(&WindowInput::KeyReleased(Key::Other(2)));
    assert!(state.is_running());
    assert_eq!(state.handle_key_presses(), vec![Key::Other(1), Key::Other(2)]);
    assert!(!state.is_running());
}

#[test]
fn stopped_game_stays_stopped() {
    let mut state = GameState::new();
    state.exit();
    state.handle_window_event(&WindowInput::KeyReleased(Key::Other(1)));
    state.handle_window_event(&WindowInput::Resized { width: 1, height: 1 });
    assert_eq!(state.handle_key_presses(), vec![Key::Other(1)]);
    assert!(!state.is_running());
}
