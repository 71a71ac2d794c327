use connect::{
    classify_event, connectors_to_literal, glyph_to_segment, next_run_decision, parse_cells,
    route_input, route_output_report, route_state_notification, update_state_on_key_event, Char,
    Color, ControlOutputPayload, ControlStatePayload, Direction, ExecutionState,
    InputControlPayload, InputEvent, Kind, KeyCode, KeyEvent, KeyEventKind, Literal, Logger,
    Object, OutputControlPayload, RunDecision, State, StateControlPayload,
};

fn plain_press(code: KeyCode) -> KeyEvent {
    KeyEvent { code, modifiers: 0, kind: KeyEventKind::Press, state: 0 }
}

// The glyph table, spot-checked against the renderer's classes.
#[test]
fn glyph_table_entries() {
    assert_eq!(glyph_to_segment('┌'), Some((0b0110, Kind::Plain)));
    assert_eq!(glyph_to_segment('┐'), Some((0b0011, Kind::Plain)));
    assert_eq!(glyph_to_segment('┘'), Some((0b1001, Kind::Plain)));
    assert_eq!(glyph_to_segment('└'), Some((0b1100, Kind::Plain)));
    assert_eq!(glyph_to_segment('╞'), Some((0b01001010, Kind::Door)));
    assert_eq!(glyph_to_segment('═'), Some((0b01010000, Kind::Door)));
    assert_eq!(glyph_to_segment('╡'), Some((0b00011010, Kind::Door)));
    assert_eq!(glyph_to_segment('┃'), Some((0b10100000, Kind::Wide)));
    assert_eq!(glyph_to_segment('█'), Some((0, Kind::Plain)));
    assert_eq!(glyph_to_segment('◊'), Some((0, Kind::Volatile)));
    assert_eq!(glyph_to_segment('x'), None);
}

// Connector joining is symmetric on concrete segments.
#[test]
fn connects_is_symmetric() {
    let a = Object::new(1, 1, 0b0110, Kind::Plain, (1, 1)); // ┌
    let b = Object::new(2, 1, 0b0011, Kind::Plain, (2, 1)); // ┐
    let c = Object::new(3, 2, 0b0011, Kind::Plain, (3, 3));
    assert!(connect::connects(&a, &b));
    assert!(connect::connects(&b, &a));
    assert!(!connect::connects(&a, &c));
    assert!(!connect::connects(&c, &a));
    // special ends join only segments of the same kind class
    let d1 = Object::new(4, 3, 0b01010000, Kind::Door, (1, 5)); // ═
    let d2 = Object::new(5, 4, 0b01010000, Kind::Door, (2, 5)); // ═
    let w2 = Object::new(6, 5, 0b01010000, Kind::Wide, (2, 5)); // ━
    assert!(connect::connects(&d1, &d2));
    assert!(!connect::connects(&d1, &w2));
}

// A closed 2x2 loop reports complete; displacing any one segment breaks it.
#[test]
fn square_complete_and_displacements() {
    let masks = [0b0110, 0b0011, 0b1001, 0b1100];
    let home = [(1u16, 1u16), (2, 1), (2, 2), (1, 2)];
    let mut state = State::new();
    for i in 0..4 {
        state.insert_object(1, masks[i], Kind::Plain, home[i]).unwrap();
    }
    assert!(state.turn_state().1);
    for moved in 0..4 {
        let mut s = State::new();
        for i in 0..4 {
            let pos = if i == moved { (home[i].0 + 7, home[i].1) } else { home[i] };
            s.insert_object(1, masks[i], Kind::Plain, pos).unwrap();
        }
        assert!(!s.turn_state().1, "displacing segment {} must break completeness", moved);
    }
}

// Moving a selected shape onto a cell occupied by a different shape is
// rejected: no state change, no history entry.
#[test]
fn move_onto_occupied_cell_rejected() {
    let mut state = State::new();
    state.insert_object(1, 15, Kind::Plain, (2, 2)).unwrap();
    state.insert_object(2, 15, Kind::Plain, (2, 3)).unwrap();
    let before = state.objects();
    assert_eq!(state.move_shape(1, (2, 2), (2, 3), (10, 10)), None);
    assert_eq!(state.objects(), before);
    // no history entry: an undo is a no-op
    assert!(state.undo().is_empty());
    assert_eq!(state.objects(), before);
    assert_eq!(state.turn_state().0, 0);
}

// After N successful moves, N undos restore the pre-move collection and
// leave N redo entries; N redos restore the final state; a move after an
// undo clears redo.
#[test]
fn undo_redo_round_trip() {
    let mut state = State::new();
    state.insert_object(1, 15, Kind::Plain, (5, 5)).unwrap();
    let start = state.objects();
    state.move_shape(1, (5, 5), (6, 5), (20, 20)).unwrap();
    state.move_shape(1, (6, 5), (6, 6), (20, 20)).unwrap();
    state.move_shape(1, (6, 6), (7, 6), (20, 20)).unwrap();
    let end = state.objects();
    assert_eq!(state.turn_state().0, 3);

    assert!(!state.undo().is_empty());
    assert!(!state.undo().is_empty());
    assert!(!state.undo().is_empty());
    assert_eq!(state.objects(), start);
    assert_eq!(state.turn_state().0, 0);
    // a fourth undo is a no-op
    assert!(state.undo().is_empty());

    assert!(!state.redo().is_empty());
    assert!(!state.redo().is_empty());
    assert!(!state.redo().is_empty());
    assert_eq!(state.objects(), end);
    assert_eq!(state.turn_state().0, 3);
    // a fourth redo is a no-op
    assert!(state.redo().is_empty());

    // a move after an undo clears redo
    assert!(!state.undo().is_empty());
    state.move_shape(1, (6, 6), (8, 6), (20, 20)).unwrap();
    assert!(state.redo().is_empty());
}

// Loading level text with a segment whose ends can match no neighbor fails
// and leaves the collection empty.
#[test]
fn load_level_isolated_segment_rejected() {
    let mut state = State::new();
    state.insert_object(1, 15, Kind::Plain, (1, 1)).unwrap();
    let text = "┌┐\n└┘\n\n╴";
    assert!(state.load_level(text).is_err());
    assert!(state.objects().is_empty());
}

// An unknown glyph is a load error too.
#[test]
fn load_level_unknown_glyph_rejected() {
    let mut state = State::new();
    assert!(state.load_level("┌┐\n└?").is_err());
    assert!(state.objects().is_empty());
}

// A well-formed level loads: walls become singletons, connected segments
// group into one shape each, and coordinates are 1-based.
#[test]
fn load_level_groups_shapes() {
    let mut state = State::new();
    state.load_level("█┌┐\n◊││\n └┘").expect("level must load");
    let objs = state.objects();
    assert_eq!(objs.len(), 8);
    let at = |x: u16, y: u16| {
        state
            .object_by_pos((x, y))
            .unwrap_or_else(|| panic!("no object at ({},{})", x, y))
    };
    assert_eq!(at(1, 1).connectors, 0);
    assert_eq!(at(1, 1).kind, Kind::Plain);
    assert_eq!(at(1, 2).connectors, 0);
    assert_eq!(at(1, 2).kind, Kind::Volatile);
    // the six ring segments form one shape
    let shape = at(2, 1).shape;
    assert_eq!(at(3, 1).shape, shape);
    assert_eq!(at(2, 2).shape, shape);
    assert_eq!(at(3, 2).shape, shape);
    assert_eq!(at(2, 3).shape, shape);
    assert_eq!(at(3, 3).shape, shape);
    // the wall and the obstacle are singletons
    assert_ne!(at(1, 1).shape, at(1, 2).shape);
    assert_ne!(at(1, 1).shape, shape);
    assert_ne!(at(1, 2).shape, shape);
    // the closed ring is complete, so the level reports done
    assert!(state.turn_state().1);
}

// Two separate runs of pipe: sliding one against the other fuses them into
// the moved shape.
#[test]
fn move_merges_touching_shapes() {
    let mut state = State::new();
    state.load_level("── ──").expect("level must load");
    let left = state.object_by_pos((1, 1)).unwrap().shape;
    let right = state.object_by_pos((4, 1)).unwrap().shape;
    assert_ne!(left, right);
    // slide the right run one step left: its open left end meets the other
    // run's open right end, and the whole left run is absorbed
    let (here, there, sel) = state.move_shape(right, (4, 1), (3, 1), (20, 20)).unwrap();
    assert_eq!(here.len(), 2);
    assert_eq!(there.len(), 4);
    assert_eq!(sel, Some(right));
    for o in state.objects() {
        assert_eq!(o.shape, right);
    }
    // two squares whose closed sides face each other stay apart
    let mut apart = State::new();
    apart.load_level("┌┐ ┌┐\n└┘ └┘").expect("level must load");
    let l2 = apart.object_by_pos((1, 1)).unwrap().shape;
    let r2 = apart.object_by_pos((4, 1)).unwrap().shape;
    let (_, _, sel2) = apart.move_shape(r2, (4, 1), (3, 1), (20, 20)).unwrap();
    assert_eq!(sel2, Some(r2));
    assert_ne!(apart.object_by_pos((1, 1)).unwrap().shape, r2);
    assert_eq!(l2, apart.object_by_pos((1, 1)).unwrap().shape);
}

// Diagonal cursor steps are rejected while a shape is selected; cardinal
// steps still succeed.
#[test]
fn selected_shape_rejects_diagonals() {
    let mut state = State::new();
    state.insert_object(1, 15, Kind::Plain, (2, 2)).unwrap();
    let out = state.set_cursor_position((2, 2));
    assert_eq!(out, vec![StateControlPayload::SetCursorPosition((2, 2))]);
    state.toggle_select_shape();
    assert_eq!(state.selected_shape(), Some(1));
    let out = state.move_cursor(Direction::UpRight);
    assert!(out.is_empty());
    assert_eq!(state.cursor_position(), (2, 2));
    let out = state.move_cursor(Direction::Right);
    assert!(!out.is_empty());
    assert_eq!(state.cursor_position(), (3, 2));
}

// Walls cannot be selected.
#[test]
fn wall_not_selectable() {
    let mut state = State::new();
    state.insert_object(1, 0, Kind::Plain, (1, 1)).unwrap();
    state.set_cursor_position((1, 1));
    let out = state.toggle_select_shape();
    assert!(out.is_empty());
    assert_eq!(state.selected_shape(), None);
}

// The board grows to requested sizes but never shrinks below its content.
#[test]
fn board_never_truncates_content() {
    let mut state = State::new();
    state.insert_object(1, 15, Kind::Plain, (30, 40)).unwrap();
    let out = state.set_board_size((10, 10));
    assert_eq!(state.board_size(), (30, 40));
    assert_eq!(out[0], StateControlPayload::ResizeTerminal((30, 40)));
    let out = state.set_board_size((100, 90));
    assert_eq!(state.board_size(), (100, 90));
    assert!(!out.is_empty());
    let out = state.set_board_size((100, 90));
    assert!(out.is_empty());
}

// Inserting onto an occupied cell or with a malformed mask is refused.
#[test]
fn insert_object_validation() {
    let mut state = State::new();
    assert_eq!(state.insert_object(1, 15, Kind::Plain, (1, 1)), Some(1));
    assert_eq!(state.insert_object(2, 15, Kind::Plain, (1, 1)), None);
    assert_eq!(state.insert_object(2, 0b10001000, Kind::Plain, (2, 1)), None); // Up twice
    assert_eq!(state.insert_object(2, 256, Kind::Plain, (2, 1)), None);
    assert_eq!(state.insert_object(2, -1, Kind::Plain, (2, 1)), None);
    assert_eq!(state.insert_object(2, 15, Kind::Plain, (2, 1)), Some(2));
}

// The key map.
#[test]
fn key_map() {
    assert_eq!(
        update_state_on_key_event(plain_press(KeyCode::Char('q'))),
        (ExecutionState::Quit, None)
    );
    assert_eq!(
        update_state_on_key_event(plain_press(KeyCode::Char('n'))),
        (ExecutionState::Restart, None)
    );
    assert_eq!(
        update_state_on_key_event(plain_press(KeyCode::Up)),
        (ExecutionState::Run, Some(ControlStatePayload::MoveCursor(Direction::Up)))
    );
    assert_eq!(
        update_state_on_key_event(plain_press(KeyCode::Char('3'))),
        (ExecutionState::Run, Some(ControlStatePayload::MoveCursor(Direction::DownRight)))
    );
    assert_eq!(
        update_state_on_key_event(plain_press(KeyCode::Char(' '))),
        (ExecutionState::Run, Some(ControlStatePayload::Select))
    );
    assert_eq!(
        update_state_on_key_event(plain_press(KeyCode::Char('u'))),
        (ExecutionState::Run, Some(ControlStatePayload::Undo))
    );
    // a modified or released key is ignored
    let mut e = plain_press(KeyCode::Char('q'));
    e.modifiers = 1;
    assert_eq!(update_state_on_key_event(e), (ExecutionState::Run, None));
    let mut e = plain_press(KeyCode::Char('q'));
    e.kind = KeyEventKind::Release;
    assert_eq!(update_state_on_key_event(e), (ExecutionState::Run, None));
}

// Input classification and routing.
#[test]
fn input_classification() {
    assert_eq!(
        classify_event(InputEvent::MouseDown((3, 4))),
        Some(InputControlPayload::Mouse((3, 4)))
    );
    assert_eq!(
        classify_event(InputEvent::MouseDrag((3, 5))),
        Some(InputControlPayload::Mouse((3, 5)))
    );
    assert_eq!(
        classify_event(InputEvent::Resize((80, 24))),
        Some(InputControlPayload::Resize((80, 24)))
    );
    assert_eq!(classify_event(InputEvent::FocusGained), None);
    assert_eq!(classify_event(InputEvent::Paste), None);
    assert_eq!(
        route_input(InputControlPayload::Mouse((3, 4))),
        (ExecutionState::Run, Some(ControlStatePayload::SetCursorPosition((3, 4))))
    );
    assert_eq!(
        route_input(InputControlPayload::Resize((80, 24))),
        (ExecutionState::Run, Some(ControlStatePayload::SetBoardSize((80, 24))))
    );
    assert_eq!(
        route_output_report(OutputControlPayload::ReportTerminalSize((80, 24))),
        ControlStatePayload::SetBoardSize((80, 24))
    );
}

// The glyph-class mapping of reported segments.
#[test]
fn literal_classes() {
    assert_eq!(connectors_to_literal(0, Kind::Plain), Literal::Wall);
    assert_eq!(connectors_to_literal(0b0110, Kind::Plain), Literal::Object(0b0110, Kind::Plain));
    assert_eq!(connectors_to_literal(5, Kind::Removed), Literal::Empty);
    assert_eq!(connectors_to_literal(0, Kind::Volatile), Literal::Volatile);
}

// Translating state notifications into output commands.
#[test]
fn state_notifications_to_output() {
    assert_eq!(
        route_state_notification(StateControlPayload::ClearTerminal),
        ControlOutputPayload::ClearTerminal
    );
    assert_eq!(
        route_state_notification(StateControlPayload::SetCursorPosition((2, 3))),
        ControlOutputPayload::SetCursorPosition((2, 3))
    );
    let obj = Object::new_with_color(1, 1, 0b0110, Kind::Plain, (4, 5), Some(Color::White));
    assert_eq!(
        route_state_notification(StateControlPayload::PrintObjects(vec![obj.clone()])),
        ControlOutputPayload::PrintChars(vec![Char::new(
            Literal::Object(0b0110, Kind::Plain),
            (4, 5),
            Some(Color::White)
        )])
    );
    let gone = Object::new(1, 0, 0, Kind::Removed, (4, 5));
    assert_eq!(
        route_state_notification(StateControlPayload::MoveShape(vec![obj], vec![gone])),
        ControlOutputPayload::PrintChars(vec![
            Char::new(Literal::Empty, (4, 5), None),
            Char::new(Literal::Empty, (4, 5), None),
        ])
    );
    assert_eq!(
        route_state_notification(StateControlPayload::TurnCounter(7, 12, false)),
        ControlOutputPayload::PrintChars(vec![Char::new(
            Literal::Text("Turn: 12   ".to_string()),
            (1, 7),
            Some(Color::DarkGrey)
        )])
    );
    assert_eq!(
        route_state_notification(StateControlPayload::TurnCounter(7, -3, true)),
        ControlOutputPayload::PrintChars(vec![Char::new(
            Literal::Text("Turn: -3 ✓".to_string()),
            (1, 7),
            Some(Color::Green)
        )])
    );
}

// Decimal rendering.
#[test]
fn decimal_rendering() {
    assert_eq!(connect::text::int_to_string(0), "0");
    assert_eq!(connect::text::int_to_string(907), "907");
    assert_eq!(connect::text::int_to_string(-45), "-45");
    assert_eq!(connect::text::int_to_string(i32::MIN), "-2147483648");
    assert_eq!(connect::text::turn_text(5, true), "Turn: 5 ✓");
}

// The crash-loop breaker.
#[test]
fn crash_loop_policy() {
    assert_eq!(next_run_decision(ExecutionState::Quit, 0, false), RunDecision::Stop);
    assert_eq!(next_run_decision(ExecutionState::Restart, 3, true), RunDecision::Restart(3));
    assert_eq!(next_run_decision(ExecutionState::Error, 0, false), RunDecision::Restart(0));
    assert_eq!(next_run_decision(ExecutionState::Error, 3, true), RunDecision::Restart(4));
    assert_eq!(next_run_decision(ExecutionState::Error, 4, true), RunDecision::Stop);
    assert_eq!(next_run_decision(ExecutionState::Error, 4, false), RunDecision::Restart(0));
}

// Parsing counts columns from 1 and accepts all three line breaks.
#[test]
fn parse_cells_positions() {
    let cells = parse_cells(" ╴╶\r\n╷\r╵").expect("parse must succeed");
    assert_eq!(cells.len(), 4);
    assert_eq!((cells[0].connectors, cells[0].pos), (1, (2, 1)));
    assert_eq!((cells[1].connectors, cells[1].pos), (4, (3, 1)));
    assert_eq!((cells[2].connectors, cells[2].pos), (2, (1, 2)));
    assert_eq!((cells[3].connectors, cells[3].pos), (8, (1, 3)));
}

// The logger carries its archive path.
#[test]
fn logger_archive_path() {
    let logger = Logger::new("log/run.log".to_string());
    assert_eq!(logger.archive_path, "log/run.log");
}

// Kind names as reported, and parsed back.
#[test]
fn kind_names() {
    assert_eq!(Kind::Plain.to_string(), "None");
    assert_eq!(Kind::Door.to_string(), "Door");
    assert_eq!(Kind::Removed.to_string(), "Removed");
    for k in [Kind::Plain, Kind::Wide, Kind::Door, Kind::Volatile, Kind::Removed] {
        assert_eq!(Kind::from_str(k.to_string()), Ok(k));
    }
    assert!(Kind::from_str("Doors").is_err());
}
