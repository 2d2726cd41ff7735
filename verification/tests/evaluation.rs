use quoridor::{
    board_heuristic, for_each_adjacent_cell, for_each_nonwalled_neighbor, goal_reachable,
    mover_heuristic, player_flow, Board, Move, Orientation, Position, Score,
};

fn place(board: &mut Board, ori: Orientation, x: i64, y: i64) {
    assert!(board.integrate(Move::WallAt(ori, Position { x, y })).is_ok());
}

#[test]
fn flow_of_the_starting_state() {
    let board = Board::default();
    // three neighbours of capacity 99 each carry one route
    assert_eq!(player_flow(&board, 0), 297);
    assert_eq!(player_flow(&board, 1), 297);
}

#[test]
fn flow_from_a_corner_and_from_the_middle() {
    let mut board = Board::default();
    board.positions[0] = Position { x: 1, y: 1 };
    assert_eq!(player_flow(&board, 0), 198);
    board.positions[0] = Position { x: 5, y: 2 };
    assert_eq!(player_flow(&board, 0), 396);
}

#[test]
fn flow_falls_when_walls_narrow_the_way() {
    let mut board = Board::default();
    // a row of walls above the first pawn that leaves one gap at the right
    place(&mut board, Orientation::Horizontal, 1, 1);
    place(&mut board, Orientation::Horizontal, 3, 1);
    place(&mut board, Orientation::Horizontal, 5, 1);
    place(&mut board, Orientation::Horizontal, 7, 1);
    let narrow = player_flow(&board, 0);
    assert!(narrow > 0);
    assert!(narrow < 297);
    // every route runs over (9,1) and (9,2); the second is five steps away
    assert_eq!(narrow, 95);
}

#[test]
fn heuristic_of_the_starting_state_is_zero() {
    let board = Board::default();
    assert_eq!(board_heuristic(&board), Score::Finite(0));
    assert_eq!(mover_heuristic(&board), Score::Finite(0));
}

#[test]
fn heuristic_counts_flow_twenty_times_and_walls_once() {
    let mut board = Board::default();
    board.positions[0] = Position { x: 5, y: 2 };
    // flows 396 and 297, stocks equal
    assert_eq!(board_heuristic(&board), Score::Finite(20 * 99));
    board.walls_left = [7, 10];
    assert_eq!(board_heuristic(&board), Score::Finite(20 * 99 - 3));
    board.player = 1;
    assert_eq!(mover_heuristic(&board), Score::Finite(-(20 * 99 - 3)));
}

#[test]
fn heuristic_of_a_won_game_is_infinite() {
    let mut board = Board::default();
    board.positions[0] = Position { x: 3, y: 9 };
    board.positions[1] = Position { x: 5, y: 8 };
    assert_eq!(board_heuristic(&board), Score::PosInf);
    assert_eq!(mover_heuristic(&board), Score::PosInf);
    board.player = 1;
    assert_eq!(mover_heuristic(&board), Score::NegInf);

    let mut board = Board::default();
    board.positions[0] = Position { x: 3, y: 2 };
    board.positions[1] = Position { x: 5, y: 1 };
    assert_eq!(board_heuristic(&board), Score::NegInf);
}

#[test]
fn score_order_and_opposite() {
    assert!(Score::PosInf.ge(Score::Finite(i64::MAX)));
    assert!(Score::Finite(i64::MIN).ge(Score::NegInf));
    assert!(!Score::NegInf.ge(Score::Finite(i64::MIN)));
    assert!(Score::Finite(3).ge(Score::Finite(3)));
    assert!(Score::Finite(2).le(Score::Finite(3)));
    assert!(!Score::Finite(4).le(Score::Finite(3)));
    assert_eq!(Score::Finite(4).max(Score::Finite(-5)), Score::Finite(4));
    assert_eq!(Score::Finite(4).min(Score::NegInf), Score::NegInf);
    assert_eq!(Score::Finite(4).neg(), Score::Finite(-4));
    assert_eq!(Score::PosInf.neg(), Score::NegInf);
    assert_eq!(Score::NegInf.neg(), Score::PosInf);
    assert_eq!(Score::Finite(i64::MIN).neg(), Score::Finite(i64::MAX));
}

#[test]
fn reachability_with_wall_sets() {
    // no walls
    assert!(goal_reachable(0, 0, Position { x: 5, y: 1 }, 9));
    // horizontal walls at (1,1), (3,1), (5,1), (7,1) and a vertical wall at (8,1):
    // the first row is cut off from the rest
    let horizontal: u64 = 1 | 1 << 2 | 1 << 4 | 1 << 6;
    let vertical: u64 = 1 << 7;
    assert!(goal_reachable(horizontal, 0, Position { x: 5, y: 1 }, 9));
    assert!(!goal_reachable(horizontal, vertical, Position { x: 5, y: 1 }, 9));
    assert!(goal_reachable(horizontal, vertical, Position { x: 9, y: 1 }, 9));
    assert!(goal_reachable(horizontal, vertical, Position { x: 5, y: 1 }, 1));
    // the corner (9,1) can still be reached from above
    assert!(goal_reachable(horizontal, vertical, Position { x: 5, y: 9 }, 1));
    // with the column closed too, nothing leads into the first row
    let closed: u64 = horizontal | 1 << 7;
    assert!(!goal_reachable(closed, 0, Position { x: 5, y: 9 }, 1));
    assert!(!goal_reachable(closed, 0, Position { x: 5, y: 1 }, 9));
}

#[test]
fn wall_sets_of_a_board() {
    let mut board = Board::default();
    place(&mut board, Orientation::Horizontal, 1, 1);
    place(&mut board, Orientation::Vertical, 8, 8);
    place(&mut board, Orientation::Horizontal, 3, 2);
    assert_eq!(board.get_wall_bitsets(), (1 | 1 << 10, 1 << 63));
}

#[test]
fn adjacent_cells_in_order() {
    let mut board = Board::default();
    let mut seen: Vec<Position> = Vec::new();
    for_each_adjacent_cell(&board, Position { x: 5, y: 5 }, &mut |c| seen.push(c));
    assert_eq!(
        seen,
        vec![
            Position { x: 6, y: 5 },
            Position { x: 4, y: 5 },
            Position { x: 5, y: 6 },
            Position { x: 5, y: 4 },
        ]
    );
    // a corner has two neighbours
    let mut seen: Vec<Position> = Vec::new();
    for_each_nonwalled_neighbor(&board, Position { x: 1, y: 1 }, &mut |c| seen.push(c));
    assert_eq!(seen, vec![Position { x: 2, y: 1 }, Position { x: 1, y: 2 }]);
    // walls take neighbours away
    place(&mut board, Orientation::Horizontal, 5, 5);
    place(&mut board, Orientation::Vertical, 4, 4);
    let mut seen: Vec<Position> = Vec::new();
    for_each_adjacent_cell(&board, Position { x: 5, y: 5 }, &mut |c| seen.push(c));
    assert_eq!(seen, vec![Position { x: 6, y: 5 }, Position { x: 5, y: 4 }]);
}
