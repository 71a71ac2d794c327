use connect::{Color, Direction, Kind, Object, State, StateControlPayload};

// Cursor movement tests
#[test]
fn move_cursor_up() {
    assert_eq!(
        State::move_cursor_to(&(1, 1), Direction::Up, (u16::MAX, u16::MAX), false),
        Some((1 + 0, 1 - 1))
    );
}
#[test]
fn move_cursor_up_right() {
    assert_eq!(
        State::move_cursor_to(&(1, 1), Direction::UpRight, (u16::MAX, u16::MAX), false),
        Some((1 + 1, 1 - 1))
    );
}
#[test]
fn move_cursor_right() {
    assert_eq!(
        State::move_cursor_to(&(1, 1), Direction::Right, (u16::MAX, u16::MAX), false),
        Some((1 + 1, 1 + 0))
    );
}
#[test]
fn move_cursor_down_right() {
    assert_eq!(
        State::move_cursor_to(&(1, 1), Direction::DownRight, (u16::MAX, u16::MAX), false),
        Some((1 + 1, 1 + 1))
    );
}
#[test]
fn move_cursor_down() {
    assert_eq!(
        State::move_cursor_to(&(1, 1), Direction::Down, (u16::MAX, u16::MAX), false),
        Some((1 + 0, 1 + 1))
    );
}
#[test]
fn move_cursor_down_left() {
    assert_eq!(
        State::move_cursor_to(&(1, 1), Direction::DownLeft, (u16::MAX, u16::MAX), false),
        Some((1 - 1, 1 + 1))
    );
}
#[test]
fn move_cursor_left() {
    assert_eq!(
        State::move_cursor_to(&(1, 1), Direction::Left, (u16::MAX, u16::MAX), false),
        Some((1 - 1, 1 + 0))
    );
}
#[test]
fn move_cursor_up_left() {
    assert_eq!(
        State::move_cursor_to(&(1, 1), Direction::UpLeft, (u16::MAX, u16::MAX), false),
        Some((1 - 1, 1 - 1))
    );
}

#[test]
// Cursor movement tests that try to go over the limits
fn no_move_cases() {
    assert_eq!(
        State::move_cursor_to(&(u16::MAX - 1, 0), Direction::Up, (u16::MAX, u16::MAX), false),
        None
    );
    assert_eq!(
        State::move_cursor_to(&(u16::MAX - 1, 0), Direction::UpRight, (u16::MAX, u16::MAX), false),
        None
    );
    assert_eq!(
        State::move_cursor_to(&(u16::MAX - 1, 0), Direction::Right, (u16::MAX, u16::MAX), false),
        None
    );
    assert_eq!(
        State::move_cursor_to(
            &(u16::MAX - 1, u16::MAX - 1),
            Direction::DownRight,
            (u16::MAX, u16::MAX),
            false
        ),
        None
    );
    assert_eq!(
        State::move_cursor_to(&(0, u16::MAX - 1), Direction::Down, (u16::MAX, u16::MAX), false),
        None
    );
    assert_eq!(
        State::move_cursor_to(
            &(0, u16::MAX - 1),
            Direction::DownLeft,
            (u16::MAX, u16::MAX),
            false
        ),
        None
    );
    assert_eq!(
        State::move_cursor_to(&(0, u16::MAX - 1), Direction::Left, (u16::MAX, u16::MAX), false),
        None
    );
    assert_eq!(
        State::move_cursor_to(&(0, 0), Direction::UpLeft, (u16::MAX, u16::MAX), false),
        None
    );
}

#[test]
// Initialize and populate the engine and see that it comes up empty
fn initalize_and_populate_database() {
    let state = State::new();
    assert!(state.objects().is_empty());
    assert_eq!(state.turn_state(), (0, true));
}

#[test]
// Make sure the initial cursor position is as expected
fn initital_cursor_position() {
    let state = State::new();
    assert_eq!(state.cursor_position(), (0, 0));
}

// Helper function that adds an object to the engine
fn add_object(state: &mut State, shape: i32, connectors: i32, kind: Kind, x: u16, y: u16) -> i32 {
    state
        .insert_object(shape, connectors, kind, (x, y))
        .expect("insert refused")
}

// Helper that queries an object by id
fn object_by_id(state: &State, id: i32) -> Option<Object> {
    state.objects().into_iter().find(|o| o.id == id)
}

#[test]
// Populate the engine with one object {id: 1, shape: 1, pos: (2,3)} and test the queries
fn object_by_id_and_pos_database() {
    const SHAPE: i32 = 1;
    const CONNECTORS: i32 = 15;
    const X: u16 = 2;
    const Y: u16 = 3;
    let mut state = State::new();
    assert_eq!(add_object(&mut state, SHAPE, CONNECTORS, Kind::Plain, X, Y), 1);
    assert_eq!(
        object_by_id(&state, 1),
        Some(Object::new(1, SHAPE, CONNECTORS, Kind::Plain, (X, Y)))
    );
    assert_eq!(
        state.object_by_pos((X, Y)),
        Some(Object::new(1, SHAPE, CONNECTORS, Kind::Plain, (X, Y)))
    );
}

#[test]
// Move the cursor and select empty space until you reach an object {id: 1, shape: 1, pos: (2,3)},
// select it, then move it around and deselect it and move the cursor some more
fn move_cursor_and_objects() {
    const SHAPE: i32 = 1;
    const CONNECTORS: i32 = 15;
    const X: u16 = 2;
    const Y: u16 = 3;
    let mut state = State::new();
    assert_eq!(add_object(&mut state, SHAPE, CONNECTORS, Kind::Plain, X, Y), 1);
    assert_eq!(state.cursor_position(), (0, 0));
    assert_eq!(state.selected_shape(), None);

    let out = state.toggle_select_shape();
    assert!(out.is_empty());
    assert_eq!(state.selected_shape(), None);

    let out = state.move_cursor(Direction::Right);
    assert_eq!(out, vec![StateControlPayload::SetCursorPosition((1, 0))]);
    let out = state.toggle_select_shape();
    assert!(out.is_empty());
    assert_eq!(state.cursor_position(), (1, 0));
    assert_eq!(state.selected_shape(), None);

    let out = state.move_cursor(Direction::Right);
    assert_eq!(out, vec![StateControlPayload::SetCursorPosition((2, 0))]);
    let out = state.move_cursor(Direction::Down);
    assert_eq!(out, vec![StateControlPayload::SetCursorPosition((2, 1))]);
    let out = state.move_cursor(Direction::Down);
    assert_eq!(out, vec![StateControlPayload::SetCursorPosition((2, 2))]);
    let out = state.move_cursor(Direction::Down);
    assert_eq!(out, vec![StateControlPayload::SetCursorPosition((2, 3))]);

    let out = state.toggle_select_shape();
    assert_eq!(
        out,
        vec![StateControlPayload::PrintObjects(vec![Object::new_with_color(
            1,
            SHAPE,
            CONNECTORS,
            Kind::Plain,
            (X, Y),
            Some(Color::White)
        )])]
    );
    assert_eq!(state.cursor_position(), (2, 3));
    assert_eq!(object_by_id(&state, 1), Some(Object::new(1, SHAPE, CONNECTORS, Kind::Plain, (X, Y))));
    assert_eq!(state.selected_shape(), Some(1));

    let out = state.move_cursor(Direction::Down);
    assert_eq!(
        out,
        vec![
            StateControlPayload::MoveShape(
                vec![Object::new(1, SHAPE, CONNECTORS, Kind::Plain, (X, Y))],
                vec![Object::new_with_color(
                    1,
                    SHAPE,
                    CONNECTORS,
                    Kind::Plain,
                    (X, Y + 1),
                    Some(Color::White)
                )]
            ),
            StateControlPayload::SetCursorPosition((2, 4)),
            StateControlPayload::TurnCounter(5, 1, false),
        ]
    );
    assert_eq!(state.cursor_position(), (2, 4));
    assert_eq!(
        object_by_id(&state, 1),
        Some(Object::new(1, SHAPE, CONNECTORS, Kind::Plain, (X, Y + 1)))
    );
    assert_eq!(state.selected_shape(), Some(1));

    state.move_cursor(Direction::Left);
    assert_eq!(state.cursor_position(), (1, 4));
    assert_eq!(
        object_by_id(&state, 1),
        Some(Object::new(1, SHAPE, CONNECTORS, Kind::Plain, (X - 1, Y + 1)))
    );
    state.move_cursor(Direction::Right);
    assert_eq!(state.cursor_position(), (2, 4));
    assert_eq!(
        object_by_id(&state, 1),
        Some(Object::new(1, SHAPE, CONNECTORS, Kind::Plain, (X, Y + 1)))
    );
    let out = state.move_cursor(Direction::Up);
    assert_eq!(out.last(), Some(&StateControlPayload::TurnCounter(4, 4, false)));
    assert_eq!(state.cursor_position(), (2, 3));
    assert_eq!(object_by_id(&state, 1), Some(Object::new(1, SHAPE, CONNECTORS, Kind::Plain, (X, Y))));
    state.move_cursor(Direction::Down);
    assert_eq!(state.cursor_position(), (2, 4));
    assert_eq!(
        object_by_id(&state, 1),
        Some(Object::new(1, SHAPE, CONNECTORS, Kind::Plain, (X, Y + 1)))
    );
    assert_eq!(state.selected_shape(), Some(1));

    let out = state.toggle_select_shape();
    assert_eq!(
        out,
        vec![StateControlPayload::PrintObjects(vec![Object::new_with_color(
            1,
            SHAPE,
            CONNECTORS,
            Kind::Plain,
            (X, Y + 1),
            Some(Color::DarkGrey)
        )])]
    );
    assert_eq!(state.selected_shape(), None);

    let out = state.move_cursor(Direction::Right);
    assert_eq!(out, vec![StateControlPayload::SetCursorPosition((3, 4))]);
    assert_eq!(
        object_by_id(&state, 1),
        Some(Object::new(1, SHAPE, CONNECTORS, Kind::Plain, (X, Y + 1)))
    );
    assert_eq!(state.selected_shape(), None);
}

#[test]
/// ┌┐
/// └┘
fn simple_complete() {
    let mut state = State::new();
    add_object(&mut state, 1, 0b0110, Kind::Plain, 1, 1); // ┌
    add_object(&mut state, 1, 0b0011, Kind::Plain, 2, 1); // ┐
    add_object(&mut state, 1, 0b1001, Kind::Plain, 2, 2); // ┘
    add_object(&mut state, 1, 0b1100, Kind::Plain, 1, 2); // └
    assert!(state.turn_state().1);
}

#[test]
/// ┐┌
/// └┘
fn simple_single_shape_incomplete() {
    let mut state = State::new();
    add_object(&mut state, 1, 0b0110, Kind::Plain, 2, 1); // ┌
    add_object(&mut state, 1, 0b0011, Kind::Plain, 1, 1); // ┐
    add_object(&mut state, 1, 0b1001, Kind::Plain, 2, 2); // ┘
    add_object(&mut state, 1, 0b1100, Kind::Plain, 1, 2); // └
    assert!(!state.turn_state().1);
}

#[test]
/// ┐ ┌
/// └ ┘
fn simple_two_shape_incomplete() {
    let mut state = State::new();
    add_object(&mut state, 2, 0b0110, Kind::Plain, 3, 1); // ┌
    add_object(&mut state, 1, 0b0011, Kind::Plain, 1, 1); // ┐
    add_object(&mut state, 2, 0b1001, Kind::Plain, 3, 2); // ┘
    add_object(&mut state, 1, 0b1100, Kind::Plain, 1, 2); // └
    assert!(!state.turn_state().1);
}

#[test]
/// ┌┐ ┌┐
/// └┘ └┘
fn simple_two_shape_complete() {
    let mut state = State::new();
    add_object(&mut state, 1, 0b0110, Kind::Plain, 1, 1); // ┌
    add_object(&mut state, 1, 0b0011, Kind::Plain, 2, 1); // ┐
    add_object(&mut state, 1, 0b1001, Kind::Plain, 2, 2); // ┘
    add_object(&mut state, 1, 0b1100, Kind::Plain, 1, 2); // └
    add_object(&mut state, 2, 0b0110, Kind::Plain, 4, 1); // ┌
    add_object(&mut state, 2, 0b0011, Kind::Plain, 5, 1); // ┐
    add_object(&mut state, 2, 0b1001, Kind::Plain, 5, 2); // ┘
    add_object(&mut state, 2, 0b1100, Kind::Plain, 4, 2); // └
    assert!(state.turn_state().1);
}

fn distinct_shape_count(state: &State) -> usize {
    let mut shapes: Vec<i32> = state.objects().into_iter().map(|o| o.shape).collect();
    shapes.sort();
    shapes.dedup();
    shapes.len()
}

#[test]
/// ┌┐═┌┐    ┌┐ ┌┐    ┌┐ ┌┐
/// │╞ ╡│ -> │╞═╡│ -> ││ ││
/// └┘ └┘    └┘ └┘    └┘ └┘
fn shapes_with_doors() {
    let mut state = State::new();
    let mut shape = state.alloc_shape_id();
    add_object(&mut state, shape, 0b00000110, Kind::Plain, 1, 1); // ┌
    add_object(&mut state, shape, 0b00000011, Kind::Plain, 2, 1); // ┐
    add_object(&mut state, shape, 0b00001001, Kind::Plain, 2, 3); // ┘
    add_object(&mut state, shape, 0b00001100, Kind::Plain, 1, 3); // └
    add_object(&mut state, shape, 0b00001010, Kind::Plain, 1, 2); // │
    add_object(&mut state, shape, 0b01001010, Kind::Door, 2, 2); // ╞

    shape = state.alloc_shape_id();
    add_object(&mut state, shape, 0b01010000, Kind::Door, 3, 1); // ═

    shape = state.alloc_shape_id();
    add_object(&mut state, shape, 0b00000110, Kind::Plain, 4, 1); // ┌
    add_object(&mut state, shape, 0b00000011, Kind::Plain, 5, 1); // ┐
    add_object(&mut state, shape, 0b00001001, Kind::Plain, 5, 3); // ┘
    add_object(&mut state, shape, 0b00001100, Kind::Plain, 4, 3); // └
    add_object(&mut state, shape, 0b00001010, Kind::Plain, 5, 2); // │
    add_object(&mut state, shape, 0b00011010, Kind::Door, 4, 2); // ╡

    let (here, there, selected_object) = state
        .move_shape(2, (3, 1), (3, 2), (10, 10))
        .expect("Shape returned `None`, where `Some` was expected");
    assert_eq!(here.len(), 1);
    assert_eq!(there.len(), 13);
    assert_eq!(selected_object, None);

    assert_eq!(state.object_by_pos((3, 2)), None); // Removed
    assert_eq!(
        state.object_by_pos((2, 2)),
        Some(Object::new(6, shape + 1, 0b00001010, Kind::Plain, (2, 2)))
    ); // ╞ → │
    assert_eq!(
        state.object_by_pos((4, 2)),
        Some(Object::new(13, shape + 2, 0b00001010, Kind::Plain, (4, 2)))
    ); // ╡ → │
    assert_eq!(distinct_shape_count(&state), 2);
    assert!(state.turn_state().1);
}

#[test]
/// ┌┐       ┌┐ ┌┐    ┌┐ ┌┐
/// │╞═┌┐ -> │╞═╡│ -> ││ ││
/// └┘ ╡│    └┘ └┘    └┘ └┘
///    └┘
fn shapes_with_doors_keep_selection() {
    let mut state = State::new();
    let mut shape = state.alloc_shape_id();
    add_object(&mut state, shape, 0b00000110, Kind::Plain, 1, 1); // ┌
    add_object(&mut state, shape, 0b00000011, Kind::Plain, 2, 1); // ┐
    add_object(&mut state, shape, 0b00001001, Kind::Plain, 2, 3); // ┘
    add_object(&mut state, shape, 0b00001100, Kind::Plain, 1, 3); // └
    add_object(&mut state, shape, 0b00001010, Kind::Plain, 1, 2); // │
    add_object(&mut state, shape, 0b01001010, Kind::Door, 2, 2); // ╞
    add_object(&mut state, shape, 0b01010000, Kind::Door, 3, 2); // ═

    shape = state.alloc_shape_id();
    add_object(&mut state, shape, 0b00000110, Kind::Plain, 4, 2); // ┌
    add_object(&mut state, shape, 0b00000011, Kind::Plain, 5, 2); // ┐
    add_object(&mut state, shape, 0b00001001, Kind::Plain, 5, 4); // ┘
    add_object(&mut state, shape, 0b00001100, Kind::Plain, 4, 4); // └
    add_object(&mut state, shape, 0b00001010, Kind::Plain, 5, 3); // │
    add_object(&mut state, shape, 0b00011010, Kind::Door, 4, 3); // ╡

    let (here, there, selected_object) = state
        .move_shape(2, (4, 2), (4, 1), (10, 10))
        .expect("Shape returned `None`, where `Some` was expected");
    assert_eq!(here.len(), 6);
    assert_eq!(there.len(), 13);
    assert_eq!(selected_object, Some(4));

    assert_eq!(state.object_by_pos((3, 2)), None); // Removed
    assert_eq!(
        state.object_by_pos((2, 2)),
        Some(Object::new(6, shape + 1, 0b00001010, Kind::Plain, (2, 2)))
    ); // ╞ → │
    assert_eq!(
        state.object_by_pos((4, 2)),
        Some(Object::new(13, shape + 2, 0b00001010, Kind::Plain, (4, 2)))
    ); // ╡ → │
    assert_eq!(distinct_shape_count(&state), 2);
    assert!(state.turn_state().1);
}
