use vstd::prelude::*;

pub mod controller;
pub mod engine;
pub mod geometry;
pub mod laws;
pub mod level;
pub mod logger;
pub mod object;
pub mod protocol;
pub mod shapes;
pub mod text;

pub use controller::{
    classify_event, connectors_to_literal, next_run_decision, route_input, route_output_report,
    route_state_notification, update_state_on_key_event, ExecutionState, RunDecision,
};
pub use engine::{State, Turn};
pub use geometry::{connects, Direction};
pub use level::{glyph_to_segment, parse_cells, ParseLevelError};
pub use logger::Logger;
pub use object::{Color, Kind, Object};
pub use protocol::{
    Char, ControlInputPayload, ControlOutputPayload, ControlStatePayload, InputControlPayload,
    InputEvent, KeyCode, KeyEvent, KeyEventKind, Literal, OutputControlPayload,
    StateControlPayload,
};

verus! {

} // verus!
