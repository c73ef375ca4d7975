use sudokui::input::{command_from_key, Command, Key, KeyInput};
use sudokui::state::{LastAction, MoveDir};

fn key(code: KeyInput) -> Key {
    Key {
        code,
        control: false,
        release: false,
    }
}

fn key_ctrl(code: KeyInput) -> Key {
    Key {
        code,
        control: true,
        release: false,
    }
}

#[test]
fn maps_navigation_shortcuts() {
    assert_eq!(
        command_from_key(key(KeyInput::Left)),
        Some(Command::Move(MoveDir::Left))
    );
    assert_eq!(
        command_from_key(key(KeyInput::Right)),
        Some(Command::Move(MoveDir::Right))
    );
    assert_eq!(
        command_from_key(key(KeyInput::Up)),
        Some(Command::Move(MoveDir::Up))
    );
    assert_eq!(
        command_from_key(key(KeyInput::Down)),
        Some(Command::Move(MoveDir::Down))
    );

    assert_eq!(
        command_from_key(key(KeyInput::Char('H'))),
        Some(Command::Move(MoveDir::Left))
    );
    assert_eq!(
        command_from_key(key(KeyInput::Char('J'))),
        Some(Command::Move(MoveDir::Down))
    );
    assert_eq!(
        command_from_key(key(KeyInput::Char('K'))),
        Some(Command::Move(MoveDir::Up))
    );
    assert_eq!(
        command_from_key(key(KeyInput::Char('L'))),
        Some(Command::Move(MoveDir::Right))
    );
}

#[test]
fn maps_action_shortcuts() {
    assert_eq!(
        command_from_key(key(KeyInput::Char('u'))),
        Some(Command::Action(LastAction::Undo))
    );
    assert_eq!(
        command_from_key(key(KeyInput::Char('r'))),
        Some(Command::Action(LastAction::Redo))
    );
    assert_eq!(
        command_from_key(key(KeyInput::Char('h'))),
        Some(Command::Action(LastAction::Hint))
    );
    assert_eq!(
        command_from_key(key(KeyInput::Char('c'))),
        Some(Command::Action(LastAction::Clear))
    );
    assert_eq!(
        command_from_key(key(KeyInput::Char('s'))),
        Some(Command::Action(LastAction::Save))
    );
    assert_eq!(
        command_from_key(key(KeyInput::Char('o'))),
        Some(Command::Action(LastAction::Load))
    );
    assert_eq!(
        command_from_key(key(KeyInput::Char('q'))),
        Some(Command::Quit)
    );
}

#[test]
fn maps_digit_entry_and_toggles() {
    assert_eq!(
        command_from_key(key(KeyInput::Char('1'))),
        Some(Command::Digit(1))
    );
    assert_eq!(
        command_from_key(key(KeyInput::Char('9'))),
        Some(Command::Digit(9))
    );
    assert_eq!(command_from_key(key(KeyInput::Char('0'))), None);

    assert_eq!(
        command_from_key(key(KeyInput::Char('n'))),
        Some(Command::ToggleNotes)
    );
    assert_eq!(
        command_from_key(key_ctrl(KeyInput::Char('n'))),
        Some(Command::NewGame)
    );
    assert_eq!(
        command_from_key(key(KeyInput::Char('g'))),
        Some(Command::ToggleGivens)
    );
    assert_eq!(
        command_from_key(key(KeyInput::Char('?'))),
        Some(Command::ToggleHelp)
    );
    assert_eq!(
        command_from_key(key(KeyInput::Char('v'))),
        Some(Command::Validate)
    );
    assert_eq!(
        command_from_key(key(KeyInput::Char('+'))),
        Some(Command::ZoomIn)
    );
    assert_eq!(
        command_from_key(key(KeyInput::Char('-'))),
        Some(Command::ZoomOut)
    );
}

#[test]
fn releases_and_ctrl_h_map_to_nothing() {
    let mut release = key(KeyInput::Char('q'));
    release.release = true;
    assert_eq!(command_from_key(release), None);
    assert_eq!(command_from_key(key_ctrl(KeyInput::Char('h'))), None);
    assert_eq!(command_from_key(key(KeyInput::Other)), None);
    assert_eq!(
        command_from_key(key(KeyInput::Enter)),
        Some(Command::SelectDifficulty)
    );
    assert_eq!(
        command_from_key(key(KeyInput::Char('P'))),
        Some(Command::MoveSelectorUp)
    );
    assert_eq!(
        command_from_key(key(KeyInput::Char('N'))),
        Some(Command::MoveSelectorDown)
    );
}
