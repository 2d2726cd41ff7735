use quoridor::{
    minimax, minimax_step, mover_heuristic, negamax, negamax_root, moves, Board, BoardFlag,
    BoardInfo, HeuristicBot, MinimaxPlayer, Move, Orientation, Player, Position, Score,
    TranspositionTable,
};

fn pawn(x: i64, y: i64) -> Move {
    Move::PawnTo(Position { x, y })
}

/// A state in which only pawns can move.
fn pawns_only(p0: (i64, i64), p1: (i64, i64), walls: &[(Orientation, i64, i64)]) -> Board {
    let mut board = Board::default();
    board.positions[0] = Position { x: p0.0, y: p0.1 };
    board.positions[1] = Position { x: p1.0, y: p1.1 };
    for &(ori, x, y) in walls {
        board.walls.push((ori, Position { x, y }));
    }
    board.walls_left = [0, 0];
    assert!(board.is_well_formed());
    board
}

#[test]
fn search_to_depth_zero_is_the_heuristic() {
    let mut board = Board::default();
    board.positions[0] = Position { x: 5, y: 2 };
    board.player = 1;
    let mut table = TranspositionTable::new();
    let value = negamax(&mut table, &board, 0, Score::NegInf, Score::PosInf);
    assert_eq!(value, Score::Finite(-20 * 99));
    assert_eq!(value, mover_heuristic(&board));
    assert_eq!(minimax(&board, 0), value);
    // nothing is filed at depth zero
    assert_eq!(table.get(&board), None);
}

#[test]
fn search_with_a_fresh_table_agrees_with_plain_search() {
    let boards = vec![
        pawns_only((5, 1), (5, 9), &[]),
        pawns_only((5, 5), (5, 6), &[]),
        pawns_only((5, 5), (5, 6), &[(Orientation::Horizontal, 5, 6)]),
        pawns_only((1, 1), (9, 9), &[(Orientation::Vertical, 1, 1), (Orientation::Horizontal, 8, 8)]),
        pawns_only((4, 8), (6, 2), &[(Orientation::Horizontal, 4, 8), (Orientation::Vertical, 5, 2)]),
    ];
    for board in boards {
        for player in 0..2 {
            let mut board = board.clone();
            board.player = player;
            for depth in 0..=3 {
                let mut table = TranspositionTable::new();
                let value = negamax(&mut table, &board, depth, Score::NegInf, Score::PosInf);
                assert_eq!(value, minimax(&board, depth));
            }
        }
    }
}

#[test]
fn search_with_walls_agrees_with_plain_search() {
    let mut board = Board::default();
    board.walls_left = [1, 1];
    let mut table = TranspositionTable::new();
    assert_eq!(
        negamax(&mut table, &board, 1, Score::NegInf, Score::PosInf),
        minimax(&board, 1)
    );
}

#[test]
fn search_files_what_it_finds() {
    let board = pawns_only((5, 5), (5, 6), &[]);
    let mut table = TranspositionTable::new();
    let value = negamax(&mut table, &board, 2, Score::NegInf, Score::PosInf);
    assert_eq!(
        table.get(&board),
        Some(BoardInfo { value, depth: 2, flag: BoardFlag::Exact })
    );
    // the states after the first moves were searched to depth 1
    for m in moves(&board) {
        let mut child = board.clone();
        child.integrate(m).unwrap();
        assert_eq!(table.get(&child).unwrap().depth, 1);
    }
    // and the table answers at once what it has filed
    let again = negamax(&mut table, &board, 2, Score::Finite(7), Score::Finite(8));
    assert_eq!(again, value);
}

#[test]
fn search_uses_entries_of_deeper_searches() {
    let board = Board::default();
    let mut table = TranspositionTable::new();
    table.insert(&board, BoardInfo { value: Score::Finite(42), depth: 5, flag: BoardFlag::Exact });
    assert_eq!(negamax(&mut table, &board, 0, Score::NegInf, Score::PosInf), Score::Finite(42));
    assert_eq!(minimax(&board, 0), Score::Finite(0));
    // a bound that leaves the window open is followed by a search
    let mut table = TranspositionTable::new();
    table.insert(
        &board,
        BoardInfo { value: Score::Finite(-5), depth: 5, flag: BoardFlag::LowerBound },
    );
    assert_eq!(negamax(&mut table, &board, 0, Score::NegInf, Score::PosInf), Score::Finite(0));
    // a bound that closes the window is returned
    assert_eq!(
        negamax(&mut table, &board, 0, Score::NegInf, Score::Finite(-5)),
        Score::Finite(-5)
    );
    // an entry of a shallower search does not count
    let mut table = TranspositionTable::new();
    table.insert(&board, BoardInfo { value: Score::Finite(42), depth: 0, flag: BoardFlag::Exact });
    let pawns = pawns_only((5, 1), (5, 9), &[]);
    table.insert(&pawns, BoardInfo { value: Score::Finite(42), depth: 0, flag: BoardFlag::Exact });
    assert_eq!(negamax(&mut table, &pawns, 1, Score::NegInf, Score::PosInf), minimax(&pawns, 1));
}

#[test]
fn table_keeps_the_last_entry_of_a_state() {
    let mut table = TranspositionTable::new();
    let a = Board::default();
    let mut b = Board::default();
    b.player = 1;
    let first = BoardInfo { value: Score::Finite(1), depth: 1, flag: BoardFlag::UpperBound };
    let second = BoardInfo { value: Score::NegInf, depth: 3, flag: BoardFlag::LowerBound };
    assert_eq!(table.get(&a), None);
    table.insert(&a, first);
    assert_eq!(table.get(&a), Some(first));
    assert_eq!(table.get(&b), None);
    table.insert(&b, first);
    table.insert(&a, second);
    assert_eq!(table.get(&a), Some(second));
    assert_eq!(table.get(&b), Some(first));
    // the order of the walls is part of the state
    let mut c = Board::default();
    c.walls.push((Orientation::Horizontal, Position { x: 1, y: 1 }));
    c.walls.push((Orientation::Horizontal, Position { x: 5, y: 5 }));
    let mut d = Board::default();
    d.walls.push((Orientation::Horizontal, Position { x: 5, y: 5 }));
    d.walls.push((Orientation::Horizontal, Position { x: 1, y: 1 }));
    table.insert(&c, first);
    assert_eq!(table.get(&c), Some(first));
    assert_eq!(table.get(&d), None);
}

#[test]
fn won_and_lost_games_are_not_searched() {
    let mut board = pawns_only((5, 9), (5, 8), &[]);
    let mut table = TranspositionTable::new();
    assert_eq!(negamax(&mut table, &board, 3, Score::NegInf, Score::PosInf), Score::PosInf);
    board.player = 1;
    assert_eq!(negamax(&mut table, &board, 3, Score::NegInf, Score::PosInf), Score::NegInf);
    assert_eq!(minimax(&board, 3), Score::NegInf);
}

#[test]
fn the_search_takes_the_winning_move() {
    // player 0 is one step from its goal row
    let board = pawns_only((3, 8), (7, 5), &[]);
    let mut table = TranspositionTable::new();
    assert_eq!(negamax_root(&mut table, &board, 0), pawn(3, 9));
    assert_eq!(negamax_root(&mut table, &board, 1), pawn(3, 9));
    assert_eq!(minimax_step(&board), pawn(3, 9));
    // and so does player 1
    let mut board = pawns_only((3, 5), (7, 2), &[]);
    board.player = 1;
    let mut table = TranspositionTable::new();
    assert_eq!(negamax_root(&mut table, &board, 1), pawn(7, 1));
    assert_eq!(minimax_step(&board), pawn(7, 1));
}

#[test]
fn of_equal_moves_the_root_takes_the_last_and_the_step_the_first() {
    // from the middle of the first row, left and right are worth the same
    let board = pawns_only((5, 1), (5, 9), &[(Orientation::Horizontal, 5, 1)]);
    let values: Vec<Score> = moves(&board)
        .into_iter()
        .map(|m| {
            let mut child = board.clone();
            child.integrate(m).unwrap();
            mover_heuristic(&child).neg()
        })
        .collect();
    let best = values.iter().fold(Score::NegInf, |a, b| a.max(*b));
    let first = values.iter().position(|v| *v == best).unwrap();
    let last = values.iter().rposition(|v| *v == best).unwrap();
    assert_eq!(minimax_step(&board), moves(&board)[first]);
    let mut table = TranspositionTable::new();
    assert_eq!(negamax_root(&mut table, &board, 0), moves(&board)[last]);
}

#[test]
fn heuristic_bot_answers_with_legal_moves() {
    let mut game = Board::default();
    let mut bot = HeuristicBot::new(Board::default());
    let first = bot.mv(None);
    assert!(game.integrate(first).is_ok());
    assert_eq!(first, minimax_step(&Board::default()));
    let reply = pawn(5, 8);
    assert!(game.integrate(reply).is_ok());
    let second = bot.mv(Some(reply));
    assert_eq!(second, minimax_step(&game));
    assert!(game.integrate(second).is_ok());
    bot.reset();
}

#[test]
fn players_of_other_kinds_can_sit_at_the_table() {
    struct Fixed(Move);
    impl Player for Fixed {
        fn mv(&mut self, _mv: Option<Move>) -> Move {
            self.0
        }

        fn reset(&mut self) {}
    }
    let mut players: Vec<Box<dyn Player>> =
        vec![Box::new(Fixed(pawn(5, 2))), Box::new(HeuristicBot::new(Board::default()))];
    let opening = players[0].mv(None);
    assert_eq!(opening, pawn(5, 2));
    let _ = MinimaxPlayer::new();
}
