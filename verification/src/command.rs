//! The built-in commands of the language.

use crate::text::{chars_of, spells};
use vstd::prelude::*;

verus! {

/// A built-in verb that the renderer carries out.
#[derive(Debug, Clone, Copy, PartialEq, Eq, Structural)]
pub enum Command {
    // movement
    Forward,
    Backward,
    Left,
    Right,
    SetHeading,
    SetXY,
    Home,
    // pen
    PenUp,
    PenDown,
    SetPenSize,
    SetPenColor,
    Fill,
    SetFillColor,
    // other
    HideTurtle,
    ShowTurtle,
    ClearScreen,
    Clean,
    SetScreenColor,
    Show,
    Exit,
}

/// The command that `name` spells, by its full name or its abbreviation.
pub open spec fn command_named(name: Seq<char>) -> Option<Command> {
    if name == "forward"@ || name == "fd"@ {
        Some(Command::Forward)
    } else if name == "backward"@ || name == "bk"@ {
        Some(Command::Backward)
    } else if name == "left"@ || name == "lt"@ {
        Some(Command::Left)
    } else if name == "right"@ || name == "rt"@ {
        Some(Command::Right)
    } else if name == "setheading"@ || name == "seth"@ {
        Some(Command::SetHeading)
    } else if name == "setxy"@ {
        Some(Command::SetXY)
    } else if name == "home"@ {
        Some(Command::Home)
    } else if name == "penup"@ || name == "pu"@ {
        Some(Command::PenUp)
    } else if name == "pendown"@ || name == "pd"@ {
        Some(Command::PenDown)
    } else if name == "setpensize"@ {
        Some(Command::SetPenSize)
    } else if name == "setpencolor"@ || name == "setpc"@ {
        Some(Command::SetPenColor)
    } else if name == "fill"@ {
        Some(Command::Fill)
    } else if name == "setfillcolor"@ || name == "setfc"@ {
        Some(Command::SetFillColor)
    } else if name == "hideturtle"@ || name == "ht"@ {
        Some(Command::HideTurtle)
    } else if name == "showturtle"@ || name == "st"@ {
        Some(Command::ShowTurtle)
    } else if name == "clearscreen"@ || name == "cs"@ {
        Some(Command::ClearScreen)
    } else if name == "clean"@ {
        Some(Command::Clean)
    } else if name == "setscreencolor"@ || name == "setsc"@ {
        Some(Command::SetScreenColor)
    } else if name == "show"@ {
        Some(Command::Show)
    } else if name == "exit"@ {
        Some(Command::Exit)
    } else {
        None
    }
}

impl Command {
    /// The number of arguments that the command takes.
    pub open spec fn arguments(self) -> nat {
        match self {
            Command::Forward | Command::Backward | Command::Left | Command::Right => 1,
            Command::SetHeading => 1,
            Command::SetXY => 2,
            Command::Home => 0,
            Command::PenUp | Command::PenDown => 0,
            Command::SetPenSize => 1,
            Command::SetPenColor => 3,
            Command::Fill => 0,
            Command::SetFillColor => 3,
            Command::HideTurtle | Command::ShowTurtle => 0,
            Command::ClearScreen | Command::Clean => 0,
            Command::SetScreenColor => 3,
            Command::Show => 1,
            Command::Exit => 0,
        }
    }

    /// The full name of the command.
    pub open spec fn spelling(self) -> Seq<char> {
        match self {
            Command::Forward => "forward"@,
            Command::Backward => "backward"@,
            Command::Left => "left"@,
            Command::Right => "right"@,
            Command::SetHeading => "setheading"@,
            Command::SetXY => "setxy"@,
            Command::Home => "home"@,
            Command::PenUp => "penup"@,
            Command::PenDown => "pendown"@,
            Command::SetPenSize => "setpensize"@,
            Command::SetPenColor => "setpencolor"@,
            Command::Fill => "fill"@,
            Command::SetFillColor => "setfillcolor"@,
            Command::HideTurtle => "hideturtle"@,
            Command::ShowTurtle => "showturtle"@,
            Command::ClearScreen => "clearscreen"@,
            Command::Clean => "clean"@,
            Command::SetScreenColor => "setscreencolor"@,
            Command::Show => "show"@,
            Command::Exit => "exit"@,
        }
    }

    /// The full name of the command, by which `from_string` finds it.
    pub fn name(&self) -> (text: &'static str)
        ensures
            text@ == self.spelling(),
    {
        match self {
            Command::Forward => "forward",
            Command::Backward => "backward",
            Command::Left => "left",
            Command::Right => "right",
            Command::SetHeading => "setheading",
            Command::SetXY => "setxy",
            Command::Home => "home",
            Command::PenUp => "penup",
            Command::PenDown => "pendown",
            Command::SetPenSize => "setpensize",
            Command::SetPenColor => "setpencolor",
            Command::Fill => "fill",
            Command::SetFillColor => "setfillcolor",
            Command::HideTurtle => "hideturtle",
            Command::ShowTurtle => "showturtle",
            Command::ClearScreen => "clearscreen",
            Command::Clean => "clean",
            Command::SetScreenColor => "setscreencolor",
            Command::Show => "show",
            Command::Exit => "exit",
        }
    }

    /// The command that `s` names, by its full name or its abbreviation.
    pub fn from_string(s: &str) -> (found: Option<Command>)
        ensures
            found == command_named(s@),
    {
        let name = chars_of(s);
        if spells(&name, "forward") || spells(&name, "fd") {
            Some(Command::Forward)
        } else if spells(&name, "backward") || spells(&name, "bk") {
            Some(Command::Backward)
        } else if spells(&name, "left") || spells(&name, "lt") {
            Some(Command::Left)
        } else if spells(&name, "right") || spells(&name, "rt") {
            Some(Command::Right)
        } else if spells(&name, "setheading") || spells(&name, "seth") {
            Some(Command::SetHeading)
        } else if spells(&name, "setxy") {
            Some(Command::SetXY)
        } else if spells(&name, "home") {
            Some(Command::Home)
        } else if spells(&name, "penup") || spells(&name, "pu") {
            Some(Command::PenUp)
        } else if spells(&name, "pendown") || spells(&name, "pd") {
            Some(Command::PenDown)
        } else if spells(&name, "setpensize") {
            Some(Command::SetPenSize)
        } else if spells(&name, "setpencolor") || spells(&name, "setpc") {
            Some(Command::SetPenColor)
        } else if spells(&name, "fill") {
            Some(Command::Fill)
        } else if spells(&name, "setfillcolor") || spells(&name, "setfc") {
            Some(Command::SetFillColor)
        } else if spells(&name, "hideturtle") || spells(&name, "ht") {
            Some(Command::HideTurtle)
        } else if spells(&name, "showturtle") || spells(&name, "st") {
            Some(Command::ShowTurtle)
        } else if spells(&name, "clearscreen") || spells(&name, "cs") {
            Some(Command::ClearScreen)
        } else if spells(&name, "clean") {
            Some(Command::Clean)
        } else if spells(&name, "setscreencolor") || spells(&name, "setsc") {
            Some(Command::SetScreenColor)
        } else if spells(&name, "show") {
            Some(Command::Show)
        } else if spells(&name, "exit") {
            Some(Command::Exit)
        } else {
            None
        }
    }

    /// The number of arguments that the command takes.
    pub fn arity(&self) -> (count: usize)
        ensures
            count == self.arguments(),
            count <= 3,
    {
        match self {
            Command::Forward | Command::Backward | Command::Left | Command::Right => 1,
            Command::SetHeading => 1,
            Command::SetXY => 2,
            Command::Home => 0,
            Command::PenUp | Command::PenDown => 0,
            Command::SetPenSize => 1,
            Command::SetPenColor => 3,
            Command::Fill => 0,
            Command::SetFillColor => 3,
            Command::HideTurtle | Command::ShowTurtle => 0,
            Command::ClearScreen | Command::Clean => 0,
            Command::SetScreenColor => 3,
            Command::Show => 1,
            Command::Exit => 0,
        }
    }
}

} // verus!
