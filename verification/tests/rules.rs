use quoridor::{
    decode9, encode8, encode9, in_bounds1to8, in_bounds1to9, is_neighbor, parse, wall_conflicts,
    referee_step, Board, IllegalMove, Move, Orientation, Position, Turn,
};

#[test]
fn modelsimple_board() {
    let mut board: Board = Default::default();
    assert!(board
        .integrate(Move::WallAt(Orientation::Horizontal, Position { x: -1, y: -1 }))
        .is_err());

    assert_eq!(0, board.player); // first player first

    assert!(board
        .integrate(Move::WallAt(Orientation::Horizontal, Position { x: 1, y: 1 }))
        .is_ok());

    assert_eq!(1, board.player); // second player

    // Cannot place wall there
    assert!(board
        .integrate(Move::WallAt(Orientation::Horizontal, Position { x: 1, y: 1 }))
        .is_err());

    assert_eq!(1, board.player); // second player

    // Cannot place wall there
    assert!(board
        .integrate(Move::WallAt(Orientation::Vertical, Position { x: 1, y: 1 }))
        .is_err());

    assert_eq!(1, board.player); // second player

    // Cannot place wall there
    assert!(board
        .integrate(Move::WallAt(Orientation::Horizontal, Position { x: 2, y: 1 }))
        .is_err());

    assert_eq!(1, board.player); // second player

    // CAN place wall there
    assert!(board
        .integrate(Move::WallAt(Orientation::Horizontal, Position { x: 8, y: 1 }))
        .is_ok());

    assert_eq!(0, board.player); // first player again

    // Cannot place wall there
    assert!(board
        .integrate(Move::WallAt(Orientation::Horizontal, Position { x: 7, y: 1 }))
        .is_err());

    assert_eq!(0, board.player); // still the first player
}

#[test]
fn test_blocking() {
    let mut board: Board = Default::default();
    assert!(board
        .integrate(Move::WallAt(Orientation::Horizontal, Position { x: 1, y: 5 }))
        .is_ok());
    assert!(board
        .integrate(Move::WallAt(Orientation::Horizontal, Position { x: 3, y: 5 }))
        .is_ok());
    assert!(board
        .integrate(Move::WallAt(Orientation::Horizontal, Position { x: 5, y: 5 }))
        .is_ok());
    assert!(board
        .integrate(Move::WallAt(Orientation::Horizontal, Position { x: 7, y: 5 }))
        .is_ok());
    assert!(board
        .integrate(Move::WallAt(Orientation::Vertical, Position { x: 7, y: 6 }))
        .is_ok());
    assert_eq!(1, board.player); // second player

    // BOTH players would now become blocked, so the move does not go through.
    assert!(board
        .integrate(Move::WallAt(Orientation::Horizontal, Position { x: 8, y: 6 }))
        .is_err());
    assert_eq!(1, board.player); // second player
}

#[test]
fn move_and_jump() {
    let mut board: Board = Default::default();

    // cannot jump now
    assert!(board.integrate(Move::PawnTo(Position { x: 5, y: 1 })).is_err());
    assert!(board.integrate(Move::PawnTo(Position { x: 5, y: 3 })).is_err());
    assert!(board.integrate(Move::PawnTo(Position { x: 5, y: 2 })).is_ok());

    let mut board: Board = Default::default();
    board.positions[0] = Position { x: 5, y: 6 };
    board.positions[1] = Position { x: 5, y: 5 };

    // now we can jump over
    assert!(board.integrate(Move::PawnTo(Position { x: 5, y: 4 })).is_ok());

    let mut board: Board = Default::default();
    board.positions[0] = Position { x: 5, y: 6 };
    board.positions[1] = Position { x: 5, y: 5 };

    assert!(board
        .integrate(Move::WallAt(Orientation::Horizontal, Position { x: 5, y: 6 }))
        .is_ok());
    assert_eq!(1, board.player); // second player

    // now we can jump diagonally
    assert!(board.integrate(Move::PawnTo(Position { x: 4, y: 6 })).is_ok());

    let mut board: Board = Default::default();
    board.positions[0] = Position { x: 5, y: 6 };
    board.positions[1] = Position { x: 5, y: 5 };

    assert!(board
        .integrate(Move::WallAt(Orientation::Horizontal, Position { x: 5, y: 6 }))
        .is_ok());
    assert_eq!(1, board.player); // second player

    // now we can jump diagonally #2
    assert!(board.integrate(Move::PawnTo(Position { x: 6, y: 6 })).is_ok());
}

#[test]
fn board_struct_size() {
    // The size of Board should be as small as possible
    // to ensure efficient memoization of the heuristic function
    // and the minimax function.
    assert_eq!(8 * 3, std::mem::size_of::<Vec<usize>>());
    assert_eq!(8 * (3 + 7), std::mem::size_of::<Board>());
}

#[test]
fn pawn_forward_one_cell() {
    // player 0 starts on e1 and walks towards row 9
    let mut board = Board::default();
    assert_eq!(board.positions[0], Position { x: 5, y: 1 });
    assert_eq!(parse("e2"), Ok(Move::PawnTo(Position { x: 5, y: 2 })));
    assert!(board.integrate(parse("e2").unwrap()).is_ok());
    assert_eq!(board.positions[0], Position { x: 5, y: 2 });
    assert_eq!(board.positions[1], Position { x: 5, y: 9 });
    assert_eq!(board.player, 1);
    // player 1 starts on e9 and walks towards row 1
    assert!(board.integrate(parse("e8").unwrap()).is_ok());
    assert_eq!(board.positions[1], Position { x: 5, y: 8 });
    assert_eq!(board.player, 0);
    // e8 is seven cells away from the first pawn's start
    let mut board = Board::default();
    assert_eq!(board.integrate(parse("e8").unwrap()), Err(IllegalMove::NotALegalJump));
    assert_eq!(board, Board::default());
}

#[test]
fn same_wall_twice_is_refused() {
    let mut board = Board::default();
    let wall = Move::WallAt(Orientation::Horizontal, Position { x: 1, y: 1 });
    assert!(board.integrate(wall).is_ok());
    assert_eq!(board.walls_left, [9, 10]);
    assert_eq!(board.walls, vec![(Orientation::Horizontal, Position { x: 1, y: 1 })]);
    let before = board.clone();
    assert_eq!(board.integrate(wall), Err(IllegalMove::WallConflict));
    assert_eq!(board.walls_left[1], 10);
    assert_eq!(board, before);
}

#[test]
fn refused_moves_change_nothing() {
    let mut board = Board::default();
    board.integrate(Move::WallAt(Orientation::Vertical, Position { x: 4, y: 4 })).unwrap();
    board.integrate(Move::PawnTo(Position { x: 5, y: 8 })).unwrap();
    let before = board.clone();
    let refused = [
        (Move::PawnTo(Position { x: 5, y: 1 }), IllegalMove::NotALegalJump),
        (Move::PawnTo(Position { x: 5, y: 0 }), IllegalMove::OutOfBounds),
        (Move::PawnTo(Position { x: 7, y: 1 }), IllegalMove::NotALegalJump),
        (Move::PawnTo(Position { x: i64::MAX, y: i64::MIN }), IllegalMove::OutOfBounds),
        (Move::WallAt(Orientation::Vertical, Position { x: 4, y: 4 }), IllegalMove::WallConflict),
        (Move::WallAt(Orientation::Vertical, Position { x: 4, y: 5 }), IllegalMove::WallConflict),
        (Move::WallAt(Orientation::Horizontal, Position { x: 4, y: 4 }), IllegalMove::WallConflict),
        (Move::WallAt(Orientation::Horizontal, Position { x: 9, y: 1 }), IllegalMove::OutOfBounds),
        (Move::WallAt(Orientation::Horizontal, Position { x: 0, y: 1 }), IllegalMove::OutOfBounds),
        (
            Move::WallAt(Orientation::Horizontal, Position { x: i64::MAX, y: i64::MAX }),
            IllegalMove::OutOfBounds,
        ),
    ];
    for (m, why) in refused {
        assert!(!board.is_valid_move(&m));
        assert_eq!(board.check_move(&m), Some(why));
        assert_eq!(board.integrate(m), Err(why));
        assert_eq!(board, before);
    }
}

#[test]
fn accepted_moves_change_what_they_should() {
    let mut board = Board::default();
    board.integrate(Move::PawnTo(Position { x: 4, y: 1 })).unwrap();
    assert_eq!(board.player, 1);
    assert_eq!(board.positions, [Position { x: 4, y: 1 }, Position { x: 5, y: 9 }]);
    assert_eq!(board.walls_left, [10, 10]);
    assert!(board.walls.is_empty());
    board.integrate(Move::WallAt(Orientation::Vertical, Position { x: 8, y: 8 })).unwrap();
    assert_eq!(board.player, 0);
    assert_eq!(board.positions, [Position { x: 4, y: 1 }, Position { x: 5, y: 9 }]);
    assert_eq!(board.walls_left, [10, 9]);
    assert_eq!(board.walls, vec![(Orientation::Vertical, Position { x: 8, y: 8 })]);
    assert!(board.is_well_formed());
}

#[test]
fn wall_conflicts_both_ways() {
    let h = Orientation::Horizontal;
    let v = Orientation::Vertical;
    let at = |x, y| Position { x, y };
    let cases = [
        (h, at(3, 3), h, at(3, 3), true),
        (h, at(3, 3), h, at(4, 3), true),
        (h, at(3, 3), h, at(5, 3), false),
        (h, at(3, 3), h, at(3, 4), false),
        (v, at(3, 3), v, at(3, 4), true),
        (v, at(3, 3), v, at(3, 5), false),
        (v, at(3, 3), v, at(4, 3), false),
        (h, at(3, 3), v, at(3, 3), true),
        (h, at(3, 3), v, at(4, 3), false),
        (h, at(3, 3), v, at(3, 4), false),
        (h, at(i64::MAX, 3), h, at(i64::MIN, 3), false),
    ];
    for (oa, pa, ob, pb, expected) in cases {
        assert_eq!(wall_conflicts(&oa, &pa, &ob, &pb), expected);
        assert_eq!(wall_conflicts(&ob, &pb, &oa, &pa), expected);
    }
}

#[test]
fn walls_between_cells() {
    let mut board = Board::default();
    board.walls.push((Orientation::Vertical, Position { x: 3, y: 3 }));
    board.walls.push((Orientation::Horizontal, Position { x: 6, y: 6 }));
    let at = |x, y| Position { x, y };
    // the vertical wall stands between columns 3 and 4 in rows 3 and 4
    assert!(board.wall_between(&at(3, 3), &at(4, 3)));
    assert!(board.wall_between(&at(4, 4), &at(3, 4)));
    assert!(!board.wall_between(&at(3, 5), &at(4, 5)));
    assert!(!board.wall_between(&at(3, 2), &at(4, 2)));
    assert!(!board.wall_between(&at(3, 3), &at(3, 4)));
    // the horizontal wall lies between rows 6 and 7 in columns 6 and 7
    assert!(board.wall_between(&at(6, 6), &at(6, 7)));
    assert!(board.wall_between(&at(7, 7), &at(7, 6)));
    assert!(!board.wall_between(&at(8, 6), &at(8, 7)));
    assert!(!board.wall_between(&at(6, 6), &at(7, 6)));
    // cells that share no edge are never separated
    assert!(!board.wall_between(&at(3, 3), &at(5, 3)));
    assert!(!board.wall_between(&at(3, 3), &at(3, 3)));
    assert!(!board.wall_between(&at(i64::MIN, 3), &at(i64::MAX, 3)));
}

#[test]
fn jumps_follow_the_walls() {
    let at = |x, y| Position { x, y };
    let mut board = Board::default();
    board.positions = [at(5, 5), at(5, 6)];
    // straight over the opponent, not around it
    assert!(board.is_valid_jump(at(5, 7)));
    assert!(!board.is_valid_jump(at(4, 6)));
    assert!(!board.is_valid_jump(at(6, 6)));
    // no jump back, none elsewhere
    assert!(!board.is_valid_jump(at(5, 5)));
    assert!(!board.is_valid_jump(at(5, 3)));
    assert!(!board.is_valid_jump(at(7, 5)));
    assert!(!board.is_valid_jump(at(4, 4)));
    // a wall behind the opponent turns the jump to the sides
    board.walls.push((Orientation::Horizontal, at(5, 6)));
    assert!(!board.is_valid_jump(at(5, 7)));
    assert!(board.is_valid_jump(at(4, 6)));
    assert!(board.is_valid_jump(at(6, 6)));
    // a wall beside the opponent closes that side
    board.walls.push((Orientation::Vertical, at(4, 6)));
    assert!(!board.is_valid_jump(at(4, 6)));
    assert!(board.is_valid_jump(at(6, 6)));
    // a wall between the pawns ends all jumps
    board.walls.push((Orientation::Horizontal, at(4, 5)));
    assert!(!board.is_valid_jump(at(6, 6)));
    assert!(!board.is_valid_jump(at(5, 7)));
    // without a neighbour there is nothing to jump over
    let mut board = Board::default();
    board.positions = [at(5, 5), at(5, 7)];
    assert!(!board.is_valid_jump(at(5, 7)));
    assert!(!board.is_valid_jump(at(5, 9)));
    assert!(!board.is_valid_pawn_move(&at(5, 7)));
    // the other player jumps downwards
    let mut board = Board::default();
    board.positions = [at(5, 5), at(5, 6)];
    board.player = 1;
    assert!(board.is_valid_jump(at(5, 4)));
    assert!(board.is_valid_pawn_move(&at(5, 4)));
    assert!(!board.is_valid_pawn_move(&at(5, 5)));
}

#[test]
fn cells_and_anchors_have_indices() {
    assert_eq!(encode9(1, 1), 0);
    assert_eq!(encode9(9, 1), 8);
    assert_eq!(encode9(1, 2), 9);
    assert_eq!(encode9(9, 9), 80);
    assert_eq!(encode8(0, 0), 0);
    assert_eq!(encode8(7, 0), 7);
    assert_eq!(encode8(0, 1), 8);
    assert_eq!(encode8(7, 7), 63);
    for p in 0..81 {
        let c = decode9(p);
        assert_eq!(encode9(c.x, c.y), p);
    }
    assert_eq!(decode9(80), Position { x: 9, y: 9 });
    assert!(in_bounds1to9(&Position { x: 9, y: 1 }));
    assert!(!in_bounds1to9(&Position { x: 10, y: 1 }));
    assert!(!in_bounds1to9(&Position { x: 1, y: 0 }));
    assert!(in_bounds1to8(&Position { x: 8, y: 8 }));
    assert!(!in_bounds1to8(&Position { x: 9, y: 8 }));
    assert!(is_neighbor(&Position { x: 2, y: 2 }, &Position { x: 2, y: 3 }));
    assert!(is_neighbor(&Position { x: 2, y: 2 }, &Position { x: 1, y: 2 }));
    assert!(!is_neighbor(&Position { x: 2, y: 2 }, &Position { x: 3, y: 3 }));
    assert!(!is_neighbor(&Position { x: 2, y: 2 }, &Position { x: 2, y: 2 }));
    assert!(!is_neighbor(&Position { x: i64::MAX, y: 2 }, &Position { x: i64::MIN, y: 2 }));
}

#[test]
fn copies_are_the_same_state() {
    let mut board = Board::default();
    board.integrate(Move::WallAt(Orientation::Vertical, Position { x: 4, y: 4 })).unwrap();
    let copy = board.copy();
    assert_eq!(copy, board);
    assert!(copy.same(&board));
    let mut other = board.copy();
    other.walls[0].0 = Orientation::Horizontal;
    assert!(!other.same(&board));
    let mut other = board.copy();
    other.walls_left[1] = 3;
    assert!(!other.same(&board));
    assert!(!Board::default().same(&board));
}

#[test]
fn ill_formed_states_are_told() {
    assert!(Board::default().is_well_formed());
    let mut board = Board::default();
    board.player = 2;
    assert!(!board.is_well_formed());
    let mut board = Board::default();
    board.positions[1] = Position { x: 5, y: 10 };
    assert!(!board.is_well_formed());
    let mut board = Board::default();
    board.walls_left[0] = 11;
    assert!(!board.is_well_formed());
    let mut board = Board::default();
    board.walls.push((Orientation::Horizontal, Position { x: 9, y: 1 }));
    assert!(!board.is_well_formed());
}

#[test]
fn goals_stay_reachable() {
    let mut board = Board::default();
    // a fence across the board with one gap at column 9
    for x in [1, 3, 5, 7] {
        assert!(board.goal_reachable(Orientation::Horizontal, Position { x, y: 5 }));
        board.integrate(Move::WallAt(Orientation::Horizontal, Position { x, y: 5 })).unwrap();
    }
    // a wall beside the gap leaves the way around it
    assert!(board.goal_reachable(Orientation::Vertical, Position { x: 7, y: 6 }));
    board.integrate(Move::WallAt(Orientation::Vertical, Position { x: 7, y: 6 })).unwrap();
    // the lid on the pocket behind the gap would cut both pawns off
    assert!(!board.goal_reachable(Orientation::Horizontal, Position { x: 8, y: 6 }));
    assert!(!board.can_add_wall(Orientation::Horizontal, Position { x: 8, y: 6 }));
    // one row higher the lid closes the pocket as well, two rows higher it does not
    assert!(!board.goal_reachable(Orientation::Horizontal, Position { x: 8, y: 7 }));
    assert!(board.goal_reachable(Orientation::Horizontal, Position { x: 8, y: 8 }));
    assert!(board.can_add_wall(Orientation::Horizontal, Position { x: 8, y: 8 }));
}

#[test]
fn every_reason_for_refusal() {
    let at = |x, y| Position { x, y };
    let mut board = Board::default();
    board.positions = [at(5, 5), at(5, 6)];
    board.walls.push((Orientation::Horizontal, at(5, 4)));
    assert_eq!(board.check_move(&Move::PawnTo(at(5, 6))), Some(IllegalMove::OccupiedCell));
    assert_eq!(board.check_move(&Move::PawnTo(at(5, 4))), Some(IllegalMove::WallInTheWay));
    assert_eq!(board.check_move(&Move::PawnTo(at(4, 6))), Some(IllegalMove::NotALegalJump));
    assert_eq!(board.check_move(&Move::PawnTo(at(0, 5))), Some(IllegalMove::OutOfBounds));
    assert_eq!(board.check_move(&Move::PawnTo(at(5, 7))), None);
    assert_eq!(board.check_move(&Move::PawnTo(at(4, 5))), None);
    let wall = |o, x, y| Move::WallAt(o, at(x, y));
    assert_eq!(
        board.check_move(&wall(Orientation::Horizontal, 6, 4)),
        Some(IllegalMove::WallConflict)
    );
    assert_eq!(
        board.check_move(&wall(Orientation::Horizontal, 9, 4)),
        Some(IllegalMove::OutOfBounds)
    );
    assert_eq!(board.check_move(&wall(Orientation::Vertical, 5, 5)), None);
    board.walls_left = [0, 10];
    assert_eq!(
        board.check_move(&wall(Orientation::Vertical, 5, 5)),
        Some(IllegalMove::NoWallLeft)
    );
    assert_eq!(
        board.check_move(&wall(Orientation::Vertical, 0, 0)),
        Some(IllegalMove::NoWallLeft)
    );
    // the pocket of the fence
    let mut board = Board::default();
    for (o, x, y) in [
        (Orientation::Horizontal, 1, 5),
        (Orientation::Horizontal, 3, 5),
        (Orientation::Horizontal, 5, 5),
        (Orientation::Horizontal, 7, 5),
        (Orientation::Vertical, 7, 6),
    ] {
        assert_eq!(board.integrate(wall(o, x, y)), Ok(()));
    }
    assert_eq!(
        board.integrate(wall(Orientation::Horizontal, 8, 6)),
        Err(IllegalMove::GoalCutOff)
    );
}

#[test]
fn valid_states_stay_valid() {
    let mut board = Board::default();
    assert!(board.is_valid());
    let game = ["e2", "e8", "e3v", "d8h", "e3", "e7", "a1h", "f7", "e4", "f6"];
    for text in game {
        assert_eq!(board.integrate(parse(text).unwrap()), Ok(()));
        assert!(board.is_valid());
    }
    assert_eq!(board.walls_left, [8, 9]);
    // states that no game can be in
    let mut twice = Board::default();
    twice.positions[1] = twice.positions[0];
    assert!(twice.is_well_formed());
    assert!(!twice.is_valid());
    let mut crossing = Board::default();
    crossing.walls.push((Orientation::Horizontal, Position { x: 4, y: 4 }));
    crossing.walls.push((Orientation::Vertical, Position { x: 8, y: 8 }));
    assert!(crossing.is_valid());
    crossing.walls.push((Orientation::Vertical, Position { x: 4, y: 4 }));
    assert!(crossing.is_well_formed());
    assert!(!crossing.is_valid());
    let mut shut = Board::default();
    for x in [1, 3, 5, 7] {
        shut.walls.push((Orientation::Horizontal, Position { x, y: 5 }));
    }
    shut.walls.push((Orientation::Vertical, Position { x: 7, y: 6 }));
    assert!(shut.is_valid());
    shut.walls.push((Orientation::Horizontal, Position { x: 8, y: 6 }));
    assert!(shut.is_well_formed());
    assert!(!shut.is_valid());
    let mut beside = Board::default();
    beside.player = 2;
    assert!(!beside.is_valid());
}

#[test]
fn the_referee_tells_how_the_game_stands() {
    let mut board = Board::default();
    assert_eq!(referee_step(&mut board, parse("e2").unwrap()), Turn::Next);
    assert_eq!(board.player, 1);
    assert_eq!(board.positions[0], Position { x: 5, y: 2 });
    // a move that the rules do not allow gives the game to the other player
    let before = board.clone();
    assert_eq!(referee_step(&mut board, parse("e2").unwrap()), Turn::Forfeit(0));
    assert_eq!(board, before);
    board.player = 0;
    assert_eq!(referee_step(&mut board, parse("a9").unwrap()), Turn::Forfeit(1));
    // the step onto the goal row wins
    let mut board = Board::default();
    board.positions = [Position { x: 3, y: 8 }, Position { x: 7, y: 2 }];
    assert_eq!(referee_step(&mut board, parse("c9").unwrap()), Turn::Won(0));
    let mut board = Board::default();
    board.positions = [Position { x: 3, y: 8 }, Position { x: 7, y: 2 }];
    board.player = 1;
    assert_eq!(referee_step(&mut board, parse("g1").unwrap()), Turn::Won(1));
    assert_eq!(board.positions[1], Position { x: 7, y: 1 });
}
