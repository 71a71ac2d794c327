use vstd::prelude::*;

use crate::geometry::Direction;
use crate::object::{Color, Kind, Object};
use crate::protocol::{
    Char, ControlOutputPayload, ControlStatePayload, InputControlPayload, InputEvent, KeyCode,
    KeyEvent, KeyEventKind, Literal, OutputControlPayload, StateControlPayload,
};

verus! {

/// The scheduling loop's state machine: keep running, recreate the workers,
/// recover from a failure, or leave.
#[derive(Clone, Copy, Debug, PartialEq, Eq, Structural)]
pub enum ExecutionState {
    Run,
    Restart,
    Error,
    Quit,
}

/// A failure-recovery round stops the process once this many worker
/// restarts happen in quick succession.
pub const TOO_MANY_QUICK_SHUTDOWNS: u32 = 5;

/// The glyph class a segment is painted with: deleted cells clear, Volatile
/// obstacles and walls have fixed glyphs, everything else is drawn from its
/// connector mask and kind.
pub open spec fn spec_connectors_to_literal(connectors: i32, kind: Kind) -> Literal {
    if kind == Kind::Removed {
        Literal::Empty
    } else if kind == Kind::Volatile {
        Literal::Volatile
    } else if connectors == 0 {
        Literal::Wall
    } else {
        Literal::Object(connectors, kind)
    }
}

/// Decides [`spec_connectors_to_literal`].
pub fn connectors_to_literal(connectors: i32, kind: Kind) -> (r: Literal)
    ensures
        r == spec_connectors_to_literal(connectors, kind),
{
    match (connectors, kind) {
        (_, Kind::Removed) => Literal::Empty,
        (_, Kind::Volatile) => Literal::Volatile,
        (0, _) => Literal::Wall,
        (c, k) => Literal::Object(c, k),
    }
}

/// Only a plain key press counts: no modifiers, no repeat or release, no
/// extra state.
pub open spec fn spec_plain_press(e: KeyEvent) -> bool {
    e.modifiers == 0 && e.kind == KeyEventKind::Press && e.state == 0
}

/// The fixed key map: what one key press asks of the engine, or of the
/// scheduling loop.  Anything not in the table is ignored.
pub open spec fn spec_key_action(e: KeyEvent) -> (ExecutionState, Option<ControlStatePayload>) {
    if !spec_plain_press(e) {
        (ExecutionState::Run, Option::None)
    } else {
        match e.code {
            KeyCode::Char(c) => {
                if c == 'q' {
                    (ExecutionState::Quit, Option::None)
                } else if c == '8' {
                    (ExecutionState::Run, Some(ControlStatePayload::MoveCursor(Direction::Up)))
                } else if c == '9' {
                    (
                        ExecutionState::Run,
                        Some(ControlStatePayload::MoveCursor(Direction::UpRight)),
                    )
                } else if c == '6' {
                    (ExecutionState::Run, Some(ControlStatePayload::MoveCursor(Direction::Right)))
                } else if c == '3' {
                    (
                        ExecutionState::Run,
                        Some(ControlStatePayload::MoveCursor(Direction::DownRight)),
                    )
                } else if c == '2' {
                    (ExecutionState::Run, Some(ControlStatePayload::MoveCursor(Direction::Down)))
                } else if c == '1' {
                    (
                        ExecutionState::Run,
                        Some(ControlStatePayload::MoveCursor(Direction::DownLeft)),
                    )
                } else if c == '4' {
                    (ExecutionState::Run, Some(ControlStatePayload::MoveCursor(Direction::Left)))
                } else if c == '7' {
                    (ExecutionState::Run, Some(ControlStatePayload::MoveCursor(Direction::UpLeft)))
                } else if c == '5' || c == ' ' {
                    (ExecutionState::Run, Some(ControlStatePayload::Select))
                } else if c == 'n' {
                    (ExecutionState::Restart, Option::None)
                } else if c == 'u' {
                    (ExecutionState::Run, Some(ControlStatePayload::Undo))
                } else if c == 'r' {
                    (ExecutionState::Run, Some(ControlStatePayload::Redo))
                } else if c == 's' {
                    (ExecutionState::Run, Some(ControlStatePayload::Save))
                } else if c == 'l' {
                    (ExecutionState::Run, Some(ControlStatePayload::Load))
                } else {
                    (ExecutionState::Run, Option::None)
                }
            },
            KeyCode::Up => (ExecutionState::Run, Some(ControlStatePayload::MoveCursor(Direction::Up))),
            KeyCode::Right => (
                ExecutionState::Run,
                Some(ControlStatePayload::MoveCursor(Direction::Right)),
            ),
            KeyCode::Down => (
                ExecutionState::Run,
                Some(ControlStatePayload::MoveCursor(Direction::Down)),
            ),
            KeyCode::Left => (
                ExecutionState::Run,
                Some(ControlStatePayload::MoveCursor(Direction::Left)),
            ),
            KeyCode::Enter => (ExecutionState::Run, Some(ControlStatePayload::Select)),
            KeyCode::Other => (ExecutionState::Run, Option::None),
        }
    }
}

/// Decides [`spec_key_action`]: `q` quits, `n` restarts, the numeric pad
/// and the arrow keys steer, `5`, space and enter select, `u`/`r` undo and
/// redo, `s`/`l` save and load.
pub fn update_state_on_key_event(key_event: KeyEvent) -> (r: (
    ExecutionState,
    Option<ControlStatePayload>,
))
    ensures
        r == spec_key_action(key_event),
{
    if !(key_event.modifiers == 0 && matches!(key_event.kind, KeyEventKind::Press)
        && key_event.state == 0) {
        return (ExecutionState::Run, Option::None);
    }
    match key_event.code {
        KeyCode::Char(c) => {
            if c == 'q' {
                (ExecutionState::Quit, Option::None)
            } else if c == '8' {
                (ExecutionState::Run, Some(ControlStatePayload::MoveCursor(Direction::Up)))
            } else if c == '9' {
                (ExecutionState::Run, Some(ControlStatePayload::MoveCursor(Direction::UpRight)))
            } else if c == '6' {
                (ExecutionState::Run, Some(ControlStatePayload::MoveCursor(Direction::Right)))
            } else if c == '3' {
                (ExecutionState::Run, Some(ControlStatePayload::MoveCursor(Direction::DownRight)))
            } else if c == '2' {
                (ExecutionState::Run, Some(ControlStatePayload::MoveCursor(Direction::Down)))
            } else if c == '1' {
                (ExecutionState::Run, Some(ControlStatePayload::MoveCursor(Direction::DownLeft)))
            } else if c == '4' {
                (ExecutionState::Run, Some(ControlStatePayload::MoveCursor(Direction::Left)))
            } else if c == '7' {
                (ExecutionState::Run, Some(ControlStatePayload::MoveCursor(Direction::UpLeft)))
            } else if c == '5' || c == ' ' {
                (ExecutionState::Run, Some(ControlStatePayload::Select))
            } else if c == 'n' {
                (ExecutionState::Restart, Option::None)
            } else if c == 'u' {
                (ExecutionState::Run, Some(ControlStatePayload::Undo))
            } else if c == 'r' {
                (ExecutionState::Run, Some(ControlStatePayload::Redo))
            } else if c == 's' {
                (ExecutionState::Run, Some(ControlStatePayload::Save))
            } else if c == 'l' {
                (ExecutionState::Run, Some(ControlStatePayload::Load))
            } else {
                (ExecutionState::Run, Option::None)
            }
        },
        KeyCode::Up => (ExecutionState::Run, Some(ControlStatePayload::MoveCursor(Direction::Up))),
        KeyCode::Right => (
            ExecutionState::Run,
            Some(ControlStatePayload::MoveCursor(Direction::Right)),
        ),
        KeyCode::Down => (ExecutionState::Run, Some(ControlStatePayload::MoveCursor(Direction::Down))),
        KeyCode::Left => (ExecutionState::Run, Some(ControlStatePayload::MoveCursor(Direction::Left))),
        KeyCode::Enter => (ExecutionState::Run, Some(ControlStatePayload::Select)),
        KeyCode::Other => (ExecutionState::Run, Option::None),
    }
}

/// How the input worker classifies one raw device event: key presses, mouse
/// presses and drags, and terminal resizes are forwarded; everything else
/// is dropped.
pub open spec fn spec_classify_event(e: InputEvent) -> Option<InputControlPayload> {
    match e {
        InputEvent::Key(k) => Some(InputControlPayload::Key(k)),
        InputEvent::MouseDown(pos) => Some(InputControlPayload::Mouse(pos)),
        InputEvent::MouseDrag(pos) => Some(InputControlPayload::Mouse(pos)),
        InputEvent::Resize(size) => Some(InputControlPayload::Resize(size)),
        _ => Option::None,
    }
}

/// Decides [`spec_classify_event`].
pub fn classify_event(e: InputEvent) -> (r: Option<InputControlPayload>)
    ensures
        r == spec_classify_event(e),
{
    match e {
        InputEvent::Key(k) => Some(InputControlPayload::Key(k)),
        InputEvent::MouseDown(pos) => Some(InputControlPayload::Mouse(pos)),
        InputEvent::MouseDrag(pos) => Some(InputControlPayload::Mouse(pos)),
        InputEvent::Resize(size) => Some(InputControlPayload::Resize(size)),
        InputEvent::MouseOther => Option::None,
        InputEvent::FocusGained => Option::None,
        InputEvent::FocusLost => Option::None,
        InputEvent::Paste => Option::None,
    }
}

/// What the controller does with one message from the input worker: key
/// presses go through the key map, mouse events park the cursor, resizes
/// grow the board.
pub fn route_input(p: InputControlPayload) -> (r: (
    ExecutionState,
    Option<ControlStatePayload>,
))
    ensures
        r == match p {
            InputControlPayload::Key(k) => spec_key_action(k),
            InputControlPayload::Mouse(pos) => (
                ExecutionState::Run,
                Some(ControlStatePayload::SetCursorPosition(pos)),
            ),
            InputControlPayload::Resize(size) => (
                ExecutionState::Run,
                Some(ControlStatePayload::SetBoardSize(size)),
            ),
        },
{
    match p {
        InputControlPayload::Key(k) => update_state_on_key_event(k),
        InputControlPayload::Mouse(pos) => (
            ExecutionState::Run,
            Some(ControlStatePayload::SetCursorPosition(pos)),
        ),
        InputControlPayload::Resize(size) => (
            ExecutionState::Run,
            Some(ControlStatePayload::SetBoardSize(size)),
        ),
    }
}

/// What the controller does with one report from the output worker: the
/// initial terminal size becomes a board size command.
pub fn route_output_report(p: OutputControlPayload) -> (r: ControlStatePayload)
    ensures
        r == match p {
            OutputControlPayload::ReportTerminalSize(size) => ControlStatePayload::SetBoardSize(
                size,
            ),
        },
{
    match p {
        OutputControlPayload::ReportTerminalSize(size) => ControlStatePayload::SetBoardSize(size),
    }
}

/// The paint instruction for one reported segment.
pub open spec fn spec_paint(o: Object) -> Char {
    Char {
        l: spec_connectors_to_literal(o.connectors, o.kind),
        pos: o.pos,
        color: o.color,
    }
}

/// The paint instruction that clears one vacated cell.
pub open spec fn spec_clear_cell(o: Object) -> Char {
    Char { l: Literal::Empty, pos: o.pos, color: Option::None }
}

fn paint_objects(objects: Vec<Object>, out: &mut Vec<Char>)
    ensures
        final(out)@ == old(out)@ + objects@.map_values(|o: Object| spec_paint(o)),
{
    let mut i: usize = 0;
    while i < objects.len()
        invariant
            i <= objects@.len(),
            out@ == old(out)@ + objects@.take(i as int).map_values(|o: Object| spec_paint(o)),
        decreases objects@.len() - i,
    {
        let o = objects[i];
        out.push(Char::new(connectors_to_literal(o.connectors, o.kind), o.pos, o.color));
        proof {
            assert(objects@.take(i as int + 1) =~= objects@.take(i as int).push(o));
            assert(old(out)@ + objects@.take(i as int + 1).map_values(
                |x: Object| spec_paint(x),
            ) =~= (old(out)@ + objects@.take(i as int).map_values(
                |x: Object| spec_paint(x),
            )).push(spec_paint(o)));
        }
        i += 1;
    }
    proof {
        assert(objects@.take(objects@.len() as int) =~= objects@);
    }
}

fn clear_cells(objects: Vec<Object>, out: &mut Vec<Char>)
    ensures
        final(out)@ == old(out)@ + objects@.map_values(|o: Object| spec_clear_cell(o)),
{
    let mut i: usize = 0;
    while i < objects.len()
        invariant
            i <= objects@.len(),
            out@ == old(out)@ + objects@.take(i as int).map_values(
                |o: Object| spec_clear_cell(o),
            ),
        decreases objects@.len() - i,
    {
        let o = objects[i];
        out.push(Char::new(Literal::Empty, o.pos, Option::None));
        proof {
            assert(objects@.take(i as int + 1) =~= objects@.take(i as int).push(o));
            assert(old(out)@ + objects@.take(i as int + 1).map_values(
                |x: Object| spec_clear_cell(x),
            ) =~= (old(out)@ + objects@.take(i as int).map_values(
                |x: Object| spec_clear_cell(x),
            )).push(spec_clear_cell(o)));
        }
        i += 1;
    }
    proof {
        assert(objects@.take(objects@.len() as int) =~= objects@);
    }
}

/// What the controller does with one notification from the state engine:
/// each becomes at most one command for the output worker.  Reported
/// segments are painted through the glyph-class table; a moved shape clears
/// its old cells first; the turn counter becomes a status-line text in
/// green once the level is complete.
pub fn route_state_notification(p: StateControlPayload) -> (r: ControlOutputPayload)
    ensures
        match p {
            StateControlPayload::ClearTerminal => r == ControlOutputPayload::ClearTerminal,
            StateControlPayload::PrintObjects(objects) => r is PrintChars
                && r->PrintChars_0@ == objects@.map_values(|o: Object| spec_paint(o)),
            StateControlPayload::SetCursorPosition(pos) => r
                == ControlOutputPayload::SetCursorPosition(pos),
            StateControlPayload::MoveShape(here, there) => r is PrintChars && r->PrintChars_0@
                == here@.map_values(|o: Object| spec_clear_cell(o)) + there@.map_values(
                |o: Object| spec_paint(o),
            ),
            StateControlPayload::ResizeTerminal(size) => r
                == ControlOutputPayload::ResizeTerminal(size),
            StateControlPayload::TurnCounter(row, turn, complete) => r is PrintChars && {
                let chars = r->PrintChars_0@;
                &&& chars.len() == 1
                &&& chars[0].l is Text
                &&& chars[0].l->Text_0@ == crate::text::spec_turn_text(turn as int, complete)
                &&& chars[0].pos == (1u16, row)
                &&& chars[0].color == Some(
                    if complete {
                        Color::Green
                    } else {
                        Color::DarkGrey
                    },
                )
            },
        },
{
    match p {
        StateControlPayload::ClearTerminal => ControlOutputPayload::ClearTerminal,
        StateControlPayload::PrintObjects(objects) => {
            let mut chars: Vec<Char> = Vec::new();
            paint_objects(objects, &mut chars);
            ControlOutputPayload::PrintChars(chars)
        },
        StateControlPayload::SetCursorPosition(pos) => ControlOutputPayload::SetCursorPosition(
            pos,
        ),
        StateControlPayload::MoveShape(here, there) => {
            let mut chars: Vec<Char> = Vec::new();
            clear_cells(here, &mut chars);
            paint_objects(there, &mut chars);
            ControlOutputPayload::PrintChars(chars)
        },
        StateControlPayload::ResizeTerminal(size) => ControlOutputPayload::ResizeTerminal(size),
        StateControlPayload::TurnCounter(row, turn, complete) => {
            let text = crate::text::turn_text(turn, complete);
            let color = Some(
                if complete {
                    Color::Green
                } else {
                    Color::DarkGrey
                },
            );
            let mut chars: Vec<Char> = Vec::new();
            chars.push(Char::new(Literal::Text(text), (1, row), color));
            ControlOutputPayload::PrintChars(chars)
        },
    }
}

/// What the scheduling loop does after a controller round ends.
#[derive(Debug, PartialEq, Eq, Structural)]
pub enum RunDecision {
    Stop,
    Restart(u32),
}

/// The failure-recovery policy (the crash-loop breaker): an explicit quit
/// stops; an explicit restart recreates the workers and keeps the counter;
/// an error recreates them too, counting restarts that come within the
/// grace period since the last (re)start and stopping the process once too
/// many pile up.
pub fn next_run_decision(exec: ExecutionState, quick_shutdowns: u32, within_grace: bool) -> (r:
    RunDecision)
    requires
        quick_shutdowns < u32::MAX,
    ensures
        r == match exec {
            ExecutionState::Quit => RunDecision::Stop,
            ExecutionState::Restart => RunDecision::Restart(quick_shutdowns),
            _ => {
                let bumped = if within_grace {
                    (quick_shutdowns + 1) as u32
                } else {
                    0u32
                };
                if bumped >= TOO_MANY_QUICK_SHUTDOWNS {
                    RunDecision::Stop
                } else {
                    RunDecision::Restart(bumped)
                }
            },
        },
{
    match exec {
        ExecutionState::Quit => RunDecision::Stop,
        ExecutionState::Restart => RunDecision::Restart(quick_shutdowns),
        _ => {
            let bumped = if within_grace {
                quick_shutdowns + 1
            } else {
                0
            };
            if bumped >= TOO_MANY_QUICK_SHUTDOWNS {
                RunDecision::Stop
            } else {
                RunDecision::Restart(bumped)
            }
        },
    }
}

} // verus!
