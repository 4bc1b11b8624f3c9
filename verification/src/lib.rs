//! Rules and text formats of a sokoban-like puzzle with three kinds of actors:
//! a warrior who pushes, a thief who pulls and a wizard who swaps, on maps
//! with switches that open doors.
use vstd::prelude::*;

pub mod actions;
pub mod board;
pub mod game;
pub mod laws;
pub mod level;
pub mod messages;
pub mod render;
pub mod session;
pub mod text;
pub mod types;

pub use actions::{ActionParseError, parse_actions};
pub use game::Game;
pub use level::{
    Level, LevelError, LevelMap, level_map,
    parse_level_sources, parse_levels,
};
pub use messages::{find_level, not_found_message};
pub use render::GameReport;
pub use session::{Key, KeyOutcome, KeyPress, handle_key, is_quit, key_to_action, run_script};
pub use types::{Action, ActionResult, Actor, ActorKind, Direction, Pos, Tile};

verus! {
} // verus!
