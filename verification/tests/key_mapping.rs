use maze::game::{map_key_event_to_game_input, GameInput, Key, KeyStroke, MoveDirection};

fn press(key: Key, control: bool) -> KeyStroke {
    KeyStroke {
        key,
        is_press: true,
        control,
    }
}

#[test]
fn escape_key_maps_to_quit_input() {
    let key = press(Key::Esc, false);
    assert_eq!(map_key_event_to_game_input(key), Some(GameInput::Quit));
}

#[test]
fn ctrl_c_maps_to_quit_input() {
    let key = press(Key::Char('c'), true);
    assert_eq!(map_key_event_to_game_input(key), Some(GameInput::Quit));
}

#[test]
fn arrows_map_to_moves_and_other_keys_to_nothing() {
    assert_eq!(
        map_key_event_to_game_input(press(Key::Up, false)),
        Some(GameInput::Move(MoveDirection::Up))
    );
    assert_eq!(
        map_key_event_to_game_input(press(Key::Left, true)),
        Some(GameInput::Move(MoveDirection::Left))
    );
    assert_eq!(map_key_event_to_game_input(press(Key::Char('c'), false)), None);
    assert_eq!(map_key_event_to_game_input(press(Key::Char('x'), true)), None);
    assert_eq!(map_key_event_to_game_input(press(Key::Other, false)), None);
}

#[test]
fn released_keys_map_to_nothing() {
    let key = KeyStroke {
        key: Key::Esc,
        is_press: false,
        control: false,
    };
    assert_eq!(map_key_event_to_game_input(key), None);
}
