use vstd::prelude::*;

use crate::geometry::Direction;
use crate::object::{Color, Kind, Object};

verus! {

/// Commands the controller sends to the state engine.
#[derive(Debug, PartialEq, Eq)]
pub enum ControlStatePayload {
    MoveCursor(Direction),
    SetCursorPosition((u16, u16)),
    Select,
    SetBoardSize((u16, u16)),
    Undo,
    Redo,
    Save,
    Load,
    Shutdown,
}

/// Render notifications the state engine hands back for the controller to
/// forward to the output worker.
#[derive(Debug, PartialEq, Eq)]
pub enum StateControlPayload {
    ClearTerminal,
    PrintObjects(Vec<Object>),
    SetCursorPosition((u16, u16)),
    MoveShape(Vec<Object>, Vec<Object>),
    ResizeTerminal((u16, u16)),
    TurnCounter(u16, i32, bool),
}


/// The logical key model of one input event, as the input worker reports
/// it: the code plus the raw modifier and state masks and the press kind.
#[derive(Clone, Copy, Debug, PartialEq, Eq, Structural)]
pub struct KeyEvent {
    pub code: KeyCode,
    pub modifiers: u8,
    pub kind: KeyEventKind,
    pub state: u8,
}

#[derive(Clone, Copy, Debug, PartialEq, Eq, Structural)]
pub enum KeyCode {
    Char(char),
    Up,
    Down,
    Left,
    Right,
    Enter,
    Other,
}

#[derive(Clone, Copy, Debug, PartialEq, Eq, Structural)]
pub enum KeyEventKind {
    Press,
    Repeat,
    Release,
}

/// Raw device events, before the input worker classifies them.
#[derive(Clone, Copy, Debug, PartialEq, Eq)]
pub enum InputEvent {
    Key(KeyEvent),
    MouseDown((u16, u16)),
    MouseDrag((u16, u16)),
    MouseOther,
    Resize((u16, u16)),
    FocusGained,
    FocusLost,
    Paste,
}

/// What the input worker forwards to the controller.
#[derive(Debug, PartialEq, Eq)]
pub enum InputControlPayload {
    Key(KeyEvent),
    Resize((u16, u16)),
    Mouse((u16, u16)),
}

/// What the controller sends to the input worker.
#[derive(PartialEq, Eq, Structural)]
pub enum ControlInputPayload {
    Shutdown,
}

/// What the output worker reports to the controller.
#[derive(Debug, PartialEq, Eq)]
pub enum OutputControlPayload {
    ReportTerminalSize((u16, u16)),
}

/// A glyph class to paint: the renderer's fixed class-to-character table is
/// outside the engine.
#[derive(Debug, PartialEq, Eq)]
pub enum Literal {
    Unknown,
    Empty,
    Wall,
    Volatile,
    Object(i32, Kind),
    Text(String),
}

/// One paint instruction: a glyph class at a cell, optionally colored.
#[derive(Debug, PartialEq, Eq)]
pub struct Char {
    pub l: Literal,
    pub pos: (u16, u16),
    pub color: Option<Color>,
}

impl Char {
    pub fn new(l: Literal, pos: (u16, u16), color: Option<Color>) -> (r: Char)
        ensures
            r == (Char { l, pos, color }),
    {
        Char { l, pos, color }
    }
}

/// What the controller sends to the output worker.
#[derive(Debug, PartialEq, Eq)]
pub enum ControlOutputPayload {
    ClearTerminal,
    PrintChars(Vec<Char>),
    SetCursorPosition((u16, u16)),
    ResizeTerminal((u16, u16)),
    Shutdown,
}

} // verus!
