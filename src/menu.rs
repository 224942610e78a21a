//! The operator's choices at the host prompt.

use vstd::prelude::*;
use vstd::string::StrSliceExecFns;
use crate::protocol::{Command, Message};

verus! {

/// What a line typed at the prompt asks for.
#[derive(Clone, Copy, Debug, PartialEq, Eq, Structural)]
pub enum MenuChoice {
    /// Send this command to the device.
    Send(Command),
    /// Show the menu again.
    Help,
    /// Leave the program.
    Quit,
    /// Not a menu entry.
    Invalid,
}

/// `s` without the line-ending characters at its end.
pub open spec fn strip_line_end(s: Seq<char>) -> Seq<char>
    decreases s.len(),
{
    if s.len() > 0 && (s.last() == '\n' || s.last() == '\r') {
        strip_line_end(s.drop_last())
    } else {
        s
    }
}

/// The choice that `line` stands for: one of the keys `1` to `4`, `h` or
/// `q`, alone on the line.
pub open spec fn choice_of(line: Seq<char>) -> MenuChoice {
    let key = strip_line_end(line);
    if key.len() != 1 {
        MenuChoice::Invalid
    } else if key[0] == '1' {
        MenuChoice::Send(Command::SetValue(0x12, Message::B(12), 0b001))
    } else if key[0] == '2' {
        MenuChoice::Send(Command::Get(0x12, 12, 0b001))
    } else if key[0] == '3' {
        MenuChoice::Send(Command::SetValue(0x01, Message::B(1), 0b000))
    } else if key[0] == '4' {
        MenuChoice::Send(Command::Get(0x01, 15, 0b000))
    } else if key[0] == 'h' {
        MenuChoice::Help
    } else if key[0] == 'q' {
        MenuChoice::Quit
    } else {
        MenuChoice::Invalid
    }
}

fn is_line_end(c: char) -> (r: bool)
    ensures
        r == (c == '\n' || c == '\r'),
{
    c == '\n' || c == '\r'
}

/// Reads the operator's choice from one line of input.
pub fn menu_choice(line: &str) -> (r: MenuChoice)
    ensures
        r == choice_of(line@),
{
    let mut end = line.unicode_len();
    assert(line@.subrange(0, end as int) =~= line@);
    while end > 0 && is_line_end(line.get_char(end - 1))
        invariant
            end <= line@.len(),
            strip_line_end(line@) == strip_line_end(line@.subrange(0, end as int)),
        decreases end,
    {
        assert(line@.subrange(0, end as int).drop_last() =~= line@.subrange(0, end - 1));
        end -= 1;
    }
    assert(strip_line_end(line@) == line@.subrange(0, end as int));
    if end != 1 {
        return MenuChoice::Invalid;
    }
    let c = line.get_char(0);
    if c == '1' {
        MenuChoice::Send(Command::SetValue(0x12, Message::B(12), 0b001))
    } else if c == '2' {
        MenuChoice::Send(Command::Get(0x12, 12, 0b001))
    } else if c == '3' {
        MenuChoice::Send(Command::SetValue(0x01, Message::B(1), 0b000))
    } else if c == '4' {
        MenuChoice::Send(Command::Get(0x01, 15, 0b000))
    } else if c == 'h' {
        MenuChoice::Help
    } else if c == 'q' {
        MenuChoice::Quit
    } else {
        MenuChoice::Invalid
    }
}

} // verus!
