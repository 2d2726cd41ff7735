use quoridor::{
    for_each_move, for_each_pawn_move, for_each_wall_move, is_finished, is_valid_move, moves,
    next_move, Board, Move, Orientation, PlayerColor, Position,
};

fn pawn(x: i64, y: i64) -> Move {
    Move::PawnTo(Position { x, y })
}

fn place(board: &mut Board, ori: Orientation, x: i64, y: i64) {
    assert!(board.integrate(Move::WallAt(ori, Position { x, y })).is_ok());
}

#[test]
fn moves_of_the_starting_state() {
    let board = Board::default();
    let all = moves(&board);
    // three steps and 128 walls
    assert_eq!(all.len(), 3 + 128);
    assert_eq!(&all[..3], &[pawn(6, 1), pawn(4, 1), pawn(5, 2)]);
    // walls: horizontal first, then by column, then by row
    assert_eq!(all[3], Move::WallAt(Orientation::Horizontal, Position { x: 1, y: 1 }));
    assert_eq!(all[4], Move::WallAt(Orientation::Horizontal, Position { x: 1, y: 2 }));
    assert_eq!(all[3 + 8], Move::WallAt(Orientation::Horizontal, Position { x: 2, y: 1 }));
    assert_eq!(all[3 + 64], Move::WallAt(Orientation::Vertical, Position { x: 1, y: 1 }));
    assert_eq!(all[3 + 127], Move::WallAt(Orientation::Vertical, Position { x: 8, y: 8 }));
}

#[test]
fn enumeration_yields_exactly_the_legal_moves() {
    let mut board = Board::default();
    board.positions[0] = Position { x: 5, y: 5 };
    board.positions[1] = Position { x: 5, y: 6 };
    place(&mut board, Orientation::Horizontal, 5, 6);
    place(&mut board, Orientation::Vertical, 2, 2);
    let all = moves(&board);
    for x in -1..=11 {
        for y in -1..=11 {
            let m = pawn(x, y);
            assert_eq!(all.contains(&m), board.is_valid_move(&m));
            assert_eq!(is_valid_move(&board, &m), board.is_valid_move(&m));
            for ori in [Orientation::Horizontal, Orientation::Vertical] {
                let w = Move::WallAt(ori, Position { x, y });
                assert_eq!(all.contains(&w), board.is_valid_move(&w));
            }
        }
    }
    // no move twice
    for i in 0..all.len() {
        for j in 0..i {
            assert_ne!(all[i], all[j]);
        }
    }
    // every move can be made
    for m in all {
        let mut next = board.clone();
        assert!(next.integrate(m).is_ok());
    }
}

#[test]
fn straight_jump_is_enumerated() {
    let mut board = Board::default();
    board.positions[0] = Position { x: 5, y: 5 };
    board.positions[1] = Position { x: 5, y: 6 };
    board.walls_left = [0, 0];
    assert_eq!(moves(&board), vec![pawn(6, 5), pawn(4, 5), pawn(5, 7), pawn(5, 4)]);
}

#[test]
fn diagonal_jumps_are_enumerated_when_a_wall_stands_behind() {
    let mut board = Board::default();
    board.positions[0] = Position { x: 5, y: 5 };
    board.positions[1] = Position { x: 5, y: 6 };
    place(&mut board, Orientation::Horizontal, 5, 6);
    board.player = 0;
    board.walls_left = [0, 0];
    assert_eq!(
        moves(&board),
        vec![pawn(6, 5), pawn(4, 5), pawn(4, 6), pawn(6, 6), pawn(5, 4)]
    );
    // a wall beside the opponent takes one diagonal away
    board.walls.push((Orientation::Vertical, Position { x: 5, y: 6 }));
    assert_eq!(moves(&board), vec![pawn(6, 5), pawn(4, 5), pawn(4, 6), pawn(5, 4)]);
}

#[test]
fn no_jump_over_the_edge_of_the_board() {
    let mut board = Board::default();
    board.positions[0] = Position { x: 5, y: 8 };
    board.positions[1] = Position { x: 5, y: 9 };
    board.walls_left = [0, 0];
    // behind the opponent lies the edge, which is no wall
    assert_eq!(moves(&board), vec![pawn(6, 8), pawn(4, 8), pawn(5, 7)]);
    assert!(!board.is_valid_jump(Position { x: 4, y: 9 }));
    // the jump itself does not ask where the board ends; the pawn move does
    assert!(board.is_valid_jump(Position { x: 5, y: 10 }));
    assert!(!board.is_valid_pawn_move(&Position { x: 5, y: 10 }));
}

#[test]
fn no_walls_without_stock() {
    let mut board = Board::default();
    board.walls_left = [0, 10];
    assert_eq!(moves(&board).len(), 3);
    assert!(!board.can_add_wall(Orientation::Horizontal, Position { x: 1, y: 1 }));
    assert!(board
        .integrate(Move::WallAt(Orientation::Horizontal, Position { x: 1, y: 1 }))
        .is_err());
    board.player = 1;
    assert_eq!(moves(&board).len(), 3 + 128);
}

#[test]
fn next_move_walks_through_the_moves() {
    let mut board = Board::default();
    board.walls_left = [1, 0];
    let all = moves(&board);
    let mut seen = Vec::new();
    let mut slot = 0;
    while let Some((m, next)) = next_move(&board, slot) {
        assert!(next > slot);
        seen.push(m);
        slot = next;
    }
    assert_eq!(seen, all);
    assert_eq!(next_move(&board, 144), None);
    assert_eq!(next_move(&board, 1000), None);
}

#[test]
fn visitors_see_the_moves_in_order_and_can_stop() {
    let board = Board::default();
    let all = moves(&board);

    let mut seen = Vec::new();
    for_each_move(&board, &mut |m| {
        seen.push(m);
        true
    });
    assert_eq!(seen, all);

    let mut seen = Vec::new();
    assert!(for_each_pawn_move(&board, &mut |m| {
        seen.push(m);
        true
    }));
    assert_eq!(seen, all[..3]);

    let mut seen = Vec::new();
    assert!(for_each_wall_move(&board, &mut |m| {
        seen.push(m);
        true
    }));
    assert_eq!(seen, all[3..]);

    // stop after the fifth move
    let mut seen = Vec::new();
    for_each_move(&board, &mut |m| {
        seen.push(m);
        seen.len() < 5
    });
    assert_eq!(seen, all[..5]);

    let mut count = 0;
    assert!(!for_each_pawn_move(&board, &mut |_| {
        count += 1;
        false
    }));
    assert_eq!(count, 1);
}

#[test]
fn finished_games_have_a_colour() {
    let mut board = Board::default();
    assert_eq!(is_finished(&board), None);
    assert_eq!(board.get_winner(), None);
    board.positions[0] = Position { x: 2, y: 9 };
    board.positions[1] = Position { x: 5, y: 8 };
    assert_eq!(is_finished(&board), Some(PlayerColor::Blue));
    assert_eq!(board.get_winner(), Some(0));
    board.positions[0] = Position { x: 2, y: 8 };
    board.positions[1] = Position { x: 5, y: 1 };
    assert_eq!(is_finished(&board), Some(PlayerColor::Red));
    assert_eq!(board.get_winner(), Some(1));
}

#[test]
fn visitors_are_shown_legal_moves_only() {
    let mut board = Board::default();
    board.positions = [Position { x: 5, y: 5 }, Position { x: 5, y: 6 }];
    place(&mut board, Orientation::Horizontal, 5, 6);
    place(&mut board, Orientation::Vertical, 2, 2);
    // a visitor that can take nothing but legal moves
    let mut count = 0;
    for_each_move(&board, &mut |m| {
        let mut next = board.clone();
        next.integrate(m).unwrap();
        count += 1;
        true
    });
    assert_eq!(count, moves(&board).len());
    // on the starting state: three steps, and every wall
    let start = Board::default();
    let mut pawns = Vec::new();
    for_each_pawn_move(&start, &mut |m| {
        pawns.push(m);
        true
    });
    assert_eq!(pawns, vec![pawn(6, 1), pawn(4, 1), pawn(5, 2)]);
    let mut walls = Vec::new();
    for_each_wall_move(&start, &mut |m| {
        walls.push(m);
        true
    });
    assert_eq!(walls.len(), 128);
    assert_eq!(walls[0], Move::WallAt(Orientation::Horizontal, Position { x: 1, y: 1 }));
    assert_eq!(walls[1], Move::WallAt(Orientation::Horizontal, Position { x: 1, y: 2 }));
    assert_eq!(walls[63], Move::WallAt(Orientation::Horizontal, Position { x: 8, y: 8 }));
    assert_eq!(walls[64], Move::WallAt(Orientation::Vertical, Position { x: 1, y: 1 }));
    assert_eq!(walls[127], Move::WallAt(Orientation::Vertical, Position { x: 8, y: 8 }));
    // a visitor that stops at once sees one move
    let mut count = 0;
    for_each_move(&start, &mut |_| {
        count += 1;
        false
    });
    assert_eq!(count, 1);
}
