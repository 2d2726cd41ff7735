use quoridor::{parse, parse_trimmed, printer, Move, Orientation, Position};

#[test]
fn parser_board() {
    assert_eq!(parse("e9").unwrap(), Move::PawnTo(Position { x: 5, y: 9 }));
    assert_eq!(
        parse("e9h").unwrap(),
        Move::WallAt(Orientation::Horizontal, Position { x: 5, y: 9 })
    );
    assert!(parse("e9hz").is_err());
}

#[test]
fn parse_skips_whitespace_everywhere() {
    assert_eq!(parse(" a 1\n").unwrap(), Move::PawnTo(Position { x: 1, y: 1 }));
    assert_eq!(
        parse("\ti\u{a0}8 v ").unwrap(),
        Move::WallAt(Orientation::Vertical, Position { x: 9, y: 8 })
    );
}

#[test]
fn parse_refuses_what_is_no_move() {
    assert!(parse("").is_err());
    assert!(parse("   ").is_err());
    assert!(parse("e").is_err());
    assert!(parse("9e").is_err());
    assert!(parse("j1").is_err());
    assert!(parse("a0").is_err());
    assert!(parse("a1x").is_err());
    assert!(parse("E9").is_err());
    assert!(parse("e9hh").is_err());
}

#[test]
fn parse_trimmed_takes_no_whitespace() {
    assert_eq!(
        parse_trimmed(&vec!['c', '4']).unwrap(),
        Move::PawnTo(Position { x: 3, y: 4 })
    );
    assert!(parse_trimmed(&vec!['c', ' ', '4']).is_err());
    assert!(parse_trimmed(&vec![' ', 'c', '4']).is_err());
}

#[test]
fn printer_writes_the_notation() {
    assert_eq!(printer(&Move::PawnTo(Position { x: 5, y: 9 })), "e9");
    assert_eq!(printer(&Move::PawnTo(Position { x: 1, y: 1 })), "a1");
    assert_eq!(
        printer(&Move::WallAt(Orientation::Vertical, Position { x: 5, y: 3 })),
        "e3v"
    );
    assert_eq!(
        printer(&Move::WallAt(Orientation::Horizontal, Position { x: 8, y: 8 })),
        "h8h"
    );
}

#[test]
fn parse_reads_what_printer_writes() {
    for x in 1..=9 {
        for y in 1..=9 {
            let pawn = Move::PawnTo(Position { x, y });
            assert_eq!(parse(&printer(&pawn)), Ok(pawn));
            for ori in [Orientation::Horizontal, Orientation::Vertical] {
                let wall = Move::WallAt(ori, Position { x, y });
                assert_eq!(parse(&printer(&wall)), Ok(wall));
            }
        }
    }
}
