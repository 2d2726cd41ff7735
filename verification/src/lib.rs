//! A two-player pursuit and blocking game on a 9x9 grid, with a search engine
//! that chooses moves.
//!
//! Each player owns a pawn and a stock of walls. A turn either moves the pawn
//! or places a wall; a wall may never cut a pawn off from its goal row. The
//! rules, the move enumeration, the positional evaluation and the search are
//! stated as specification functions and every executable function is proved
//! against them.

pub mod board;
pub mod connectivity;
pub mod distance;
pub mod evaluation;
pub mod flow;
pub mod geometry;
pub mod moves;
pub mod parser;
pub mod players;
pub mod score;
pub mod search;
pub mod soundness;
pub mod table;
pub mod wallset;

pub use board::{Board, IllegalMove};
pub use connectivity::goal_reachable;
pub use evaluation::{board_heuristic, mover_heuristic};
pub use flow::{for_each_adjacent_cell, for_each_nonwalled_neighbor, player_flow};
pub use geometry::{
    decode9, encode8, encode9, in_bounds1to8, in_bounds1to9, is_neighbor, wall_conflicts, Move,
    Orientation, Position, Wall,
};
pub use moves::{
    for_each_move, for_each_pawn_move, for_each_wall_move, is_finished, is_valid_move, moves,
    next_move, PlayerColor,
};
pub use parser::{parse, parse_trimmed, printer};
pub use players::{minimax_step, referee_step, HeuristicBot, MinimaxPlayer, Player, Turn};
pub use score::Score;
pub use search::{minimax, negamax, negamax_root};
pub use table::{BoardFlag, BoardInfo, TranspositionTable};
