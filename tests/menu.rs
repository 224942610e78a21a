use serial_link::menu::{menu_choice, MenuChoice};
use serial_link::{Command, Message};

#[test]
fn numbered_entries_send_commands() {
    assert_eq!(
        menu_choice("1\n"),
        MenuChoice::Send(Command::SetValue(0x12, Message::B(12), 0b001))
    );
    assert_eq!(menu_choice("2"), MenuChoice::Send(Command::Get(0x12, 12, 0b001)));
    assert_eq!(
        menu_choice("3\r\n"),
        MenuChoice::Send(Command::SetValue(0x01, Message::B(1), 0b000))
    );
    assert_eq!(menu_choice("4\n"), MenuChoice::Send(Command::Get(0x01, 15, 0b000)));
}

#[test]
fn help_and_quit() {
    assert_eq!(menu_choice("h\n"), MenuChoice::Help);
    assert_eq!(menu_choice("q"), MenuChoice::Quit);
}

#[test]
fn other_input_is_invalid() {
    assert_eq!(menu_choice(""), MenuChoice::Invalid);
    assert_eq!(menu_choice("\n"), MenuChoice::Invalid);
    assert_eq!(menu_choice("12\n"), MenuChoice::Invalid);
    assert_eq!(menu_choice("x"), MenuChoice::Invalid);
    assert_eq!(menu_choice(" 1\n"), MenuChoice::Invalid);
    assert_eq!(menu_choice("Q"), MenuChoice::Invalid);
}
