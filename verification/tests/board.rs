use truncate::board::{Board, Coordinate, Direction, Square};
use truncate::error::GamePlayError;
use truncate::hand::Hands;
use truncate::judge::{Judge, Outcome};
use truncate::moves::Move;

fn plain_dict() -> Judge {
    Judge::new(vec!["BIG", "FAT", "JOLLY", "AND", "SILLY", "FOLK", "ARTS"])
}

#[test]
fn new_board_layout() {
    let b = Board::new(3, 1);
    assert_eq!(b.to_string(), ["* _ *", "_ _ _", "* _ *"].join("\n"));
    assert_eq!(b.get_root(0), Ok(Coordinate { x: 1, y: 0 }));
    assert_eq!(b.get_root(1), Ok(Coordinate { x: 1, y: 2 }));
    assert_eq!(
        b.get_root(2),
        Err(GamePlayError::NonExistentPlayer { index: 2 })
    );
    assert_eq!(b.get(Coordinate { x: 1, y: 1 }), Ok(Square::Empty));
    assert_eq!(
        b.get(Coordinate { x: 0, y: 0 }),
        Err(GamePlayError::InvalidPosition {
            position: Coordinate { x: 0, y: 0 }
        })
    );
}

#[test]
fn text_round_trip() {
    let text = ["X _ _", "X _ _", "_ _ _"].join("\n");
    let b = Board::from_string(
        text.clone(),
        vec![Coordinate { x: 0, y: 0 }],
        vec![Direction::North],
    )
    .unwrap();
    assert_eq!(b.to_string(), text);
    assert_eq!(
        b.get(Coordinate { x: 0, y: 1 }),
        Ok(Square::Occupied(0, 'X'))
    );
}

#[test]
fn malformed_board_text() {
    // Ragged rows are rejected.
    assert!(matches!(
        Board::from_string(
            ["X _ _", "X _"].join("\n"),
            vec![Coordinate { x: 0, y: 0 }],
            vec![Direction::North],
        ),
        Err(GamePlayError::MalformedGrid)
    ));
    // One orientation per root.
    assert!(matches!(
        Board::from_string(
            ["X _", "_ _"].join("\n"),
            vec![Coordinate { x: 0, y: 0 }],
            vec![],
        ),
        Err(GamePlayError::MalformedGrid)
    ));
    // A tile that connects to no root is rejected.
    assert!(matches!(
        Board::from_string(
            ["X _ Z", "_ _ _"].join("\n"),
            vec![Coordinate { x: 0, y: 0 }],
            vec![Direction::North],
        ),
        Err(GamePlayError::MalformedGrid)
    ));
}

#[test]
fn swap_requires_ownership() {
    let mut b = Board::from_string(
        ["A B _", "_ _ _"].join("\n"),
        vec![Coordinate { x: 0, y: 0 }],
        vec![Direction::North],
    )
    .unwrap();
    // Swapping an empty square fails and changes nothing.
    assert_eq!(
        b.swap(0, [Coordinate { x: 0, y: 0 }, Coordinate { x: 2, y: 0 }]),
        Err(GamePlayError::UnownedSwap {
            position: Coordinate { x: 2, y: 0 }
        })
    );
    assert_eq!(b.to_string(), ["A B _", "_ _ _"].join("\n"));
    // Swapping two owned squares exchanges the letters.
    assert_eq!(
        b.swap(0, [Coordinate { x: 0, y: 0 }, Coordinate { x: 1, y: 0 }]),
        Ok(())
    );
    assert_eq!(b.to_string(), ["B A _", "_ _ _"].join("\n"));
}

#[test]
fn word_strings_need_tiles() {
    let b = Board::from_string(
        ["A B _", "_ _ _"].join("\n"),
        vec![Coordinate { x: 0, y: 0 }],
        vec![Direction::North],
    )
    .unwrap();
    let filled = vec![vec![Coordinate { x: 0, y: 0 }, Coordinate { x: 1, y: 0 }]];
    let strings = b.word_strings(&filled).unwrap();
    assert_eq!(strings, vec![String::from("AB")]);
    let holed = vec![vec![Coordinate { x: 0, y: 0 }, Coordinate { x: 2, y: 0 }]];
    assert_eq!(
        b.word_strings(&holed),
        Err(GamePlayError::EmptySquareInWord {
            position: Coordinate { x: 2, y: 0 }
        })
    );
}

#[test]
fn truncation_is_idempotent() {
    let mut b = Board::from_string(
        ["X _ _", "_ _ _", "_ _ _"].join("\n"),
        vec![Coordinate { x: 0, y: 0 }],
        vec![Direction::North],
    )
    .unwrap();
    // A tile written far from the root does not survive truncation.
    b.set(Coordinate { x: 2, y: 2 }, 0, 'Q').unwrap();
    let mut hands = Hands::new(1, 2, vec!['A'; 4]);
    b.truncate(&mut hands);
    assert_eq!(b.to_string(), ["X _ _", "_ _ _", "_ _ _"].join("\n"));
    // A second pass changes nothing further.
    let settled = b.to_string();
    b.truncate(&mut hands);
    assert_eq!(b.to_string(), settled);
}

#[test]
fn moves_leave_the_board_connected() {
    let mut b = Board::new(3, 1);
    let mut hands = Hands::new(1, 7, vec!['A'; 20]);
    b.make_move(
        Move::Place {
            player: 0,
            tile: 'A',
            position: Coordinate { x: 1, y: 0 },
        },
        &mut hands,
        &plain_dict(),
    )
    .unwrap();
    b.make_move(
        Move::Place {
            player: 0,
            tile: 'A',
            position: Coordinate { x: 1, y: 1 },
        },
        &mut hands,
        &plain_dict(),
    )
    .unwrap();
    // Every tile is reachable from its root, so truncation finds nothing.
    let settled = b.to_string();
    b.truncate(&mut hands);
    assert_eq!(b.to_string(), settled);
}

#[test]
fn invalid_word_destroys_the_placement() {
    // Completing an invalid word amid valid enemy words costs the attacker
    // the whole placed word, however short the enemy words are.
    let mut b = Board::from_string(
        [
            "_ _ Q _ _",
            "_ _ _ _ _",
            "_ _ B _ _",
            "_ _ I _ _",
            "_ _ G _ _",
        ]
        .join("\n"),
        vec![Coordinate { x: 2, y: 0 }, Coordinate { x: 2, y: 4 }],
        vec![Direction::North, Direction::South],
    )
    .unwrap();
    let mut hands = Hands::new(2, 7, vec!['X'; 20]);
    b.make_move(
        Move::Place {
            player: 0,
            tile: 'X',
            position: Coordinate { x: 2, y: 1 },
        },
        &mut hands,
        &plain_dict(),
    )
    .unwrap();
    assert_eq!(
        b.to_string(),
        [
            "_ _ _ _ _",
            "_ _ _ _ _",
            "_ _ B _ _",
            "_ _ I _ _",
            "_ _ G _ _",
        ]
        .join("\n"),
    );
}

#[test]
fn exact_length_threshold() {
    let j = plain_dict();
    // A defender exactly one letter shorter than the attacker survives.
    assert_eq!(
        j.battle(vec![String::from("FOLK")], vec![String::from("BIG")]),
        Outcome::DefenderWins
    );
    // Two letters shorter, and it falls.
    assert_eq!(
        j.battle(vec![String::from("SILLY")], vec![String::from("BIG")]),
        Outcome::AttackerWins(vec![0])
    );
    // Equal lengths always survive the threshold.
    assert_eq!(
        j.battle(vec![String::from("BIG")], vec![String::from("AND")]),
        Outcome::DefenderWins
    );
}
