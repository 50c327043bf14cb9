use truncate::board::{Board, Coordinate, Direction};
use truncate::error::GamePlayError;
use truncate::hand::Hands;
use truncate::judge::Judge;
use truncate::moves::Move;

pub fn short_dict() -> Judge {
    Judge::new(vec!["BIG", "FAT", "JOLLY", "AND", "SILLY", "FOLK", "ARTS"])
}

pub fn trivial_bag() -> Vec<char> {
    vec!['A'; 60]
}

pub fn a_b_bag() -> Vec<char> {
    let mut bag = Vec::new();
    for i in 0..30 {
        if i % 2 == 0 {
            bag.push('A');
        } else {
            bag.push('B');
        }
    }
    bag
}

#[test]
fn invalid_placement_locations() {
    let mut b = Board::new(3, 1);
    let mut hands = Hands::new(2, 7, trivial_bag());

    let position = Coordinate { x: 10, y: 10 };
    let out_of_bounds = Move::Place {
        player: 0,
        tile: 'A',
        position,
    };
    assert_eq!(
        b.make_move(out_of_bounds, &mut hands, &short_dict()),
        Err(GamePlayError::OutSideBoardDimensions { position })
    );

    let position = Coordinate { x: 10, y: 0 };
    let out_of_bounds = Move::Place {
        player: 0,
        tile: 'A',
        position,
    };
    assert_eq!(
        b.make_move(out_of_bounds, &mut hands, &short_dict()),
        Err(GamePlayError::OutSideBoardDimensions { position })
    );

    let position = Coordinate { x: 0, y: 0 };
    let dead = Move::Place {
        player: 0,
        tile: 'A',
        position,
    };
    assert_eq!(
        b.make_move(dead, &mut hands, &short_dict()),
        Err(GamePlayError::InvalidPosition { position })
    );
}

#[test]
fn can_place_and_swap() {
    let mut b = Board::new(3, 1);
    let mut hands = Hands::new(1, 7, a_b_bag());

    // Places on the root
    assert_eq!(
        b.make_move(
            Move::Place {
                player: 0,
                tile: 'A',
                position: Coordinate { x: 1, y: 0 }
            },
            &mut hands,
            &short_dict()
        ),
        Ok(())
    );
    // Can't place on the same place again
    assert_eq!(
        b.make_move(
            Move::Place {
                player: 0,
                tile: 'A',
                position: Coordinate { x: 1, y: 0 }
            },
            &mut hands,
            &short_dict()
        ),
        Err(GamePlayError::OccupiedPlace)
    );
    // Can't place at a diagonal
    assert_eq!(
        b.make_move(
            Move::Place {
                player: 0,
                tile: 'A',
                position: Coordinate { x: 0, y: 1 }
            },
            &mut hands,
            &short_dict()
        ),
        Err(GamePlayError::NonAdjacentPlace)
    );
    // Can place directly above
    assert_eq!(
        b.make_move(
            Move::Place {
                player: 0,
                tile: 'A',
                position: Coordinate { x: 1, y: 1 }
            },
            &mut hands,
            &short_dict()
        ),
        Ok(())
    );
    // Can't place on the same place again
    assert_eq!(
        b.make_move(
            Move::Place {
                player: 0,
                tile: 'A',
                position: Coordinate { x: 1, y: 1 }
            },
            &mut hands,
            &short_dict()
        ),
        Err(GamePlayError::OccupiedPlace)
    );

    assert_eq!(
        b.make_move(
            Move::Swap {
                player: 0,
                positions: [Coordinate { x: 1, y: 1 }, Coordinate { x: 1, y: 0 }]
            },
            &mut hands,
            &short_dict()
        ),
        Ok(())
    );
}

#[test]
fn invalid_player_or_tile() {
    let mut b = Board::new(3, 1);
    let mut hands = Hands::default();

    assert_eq!(
        b.make_move(
            Move::Place {
                player: 2,
                tile: 'A',
                position: Coordinate { x: 1, y: 0 }
            },
            &mut hands,
            &short_dict()
        ),
        Err(GamePlayError::NonExistentPlayer { index: 2 })
    );

    assert_eq!(
        b.make_move(
            Move::Place {
                player: 0,
                tile: '&',
                position: Coordinate { x: 1, y: 0 }
            },
            &mut hands,
            &short_dict()
        ),
        Err(GamePlayError::PlayerDoesNotHaveTile {
            player: 0,
            tile: '&'
        })
    );
}

#[test]
fn collect_combanants() {
    let middle = Coordinate { x: 2, y: 2 };

    let left_defender: Vec<Coordinate> = (2..=4).map(|y| Coordinate { x: 1, y }).collect();
    let right_defender: Vec<Coordinate> = (2..=4).map(|y| Coordinate { x: 3, y }).collect();
    let middle_defender: Vec<Coordinate> = (3..=4).map(|y| Coordinate { x: 2, y }).collect();
    let middle_attacker: Vec<Coordinate> =
        (0..=2).rev().map(|y| Coordinate { x: 2, y }).collect();
    let left_attacker: Vec<Coordinate> = (0..=2).rev().map(|x| Coordinate { x, y: 2 }).collect();
    let cross_defender: Vec<Coordinate> = (1..=3).map(|x| Coordinate { x, y: 3 }).collect();
    let short_cross_defender: Vec<Coordinate> =
        (2..=3).map(|x| Coordinate { x, y: 3 }).collect();

    // 1v1
    let mut one_v_one = Board::from_string(
        [
            "_ _ M _ _",
            "_ _ D _ _",
            "_ _ _ _ _",
            "_ _ M _ _",
            "_ _ D _ _",
        ]
        .join("\n"),
        vec![Coordinate { x: 2, y: 0 }, Coordinate { x: 2, y: 4 }],
        vec![Direction::North, Direction::South],
    )
    .unwrap();
    one_v_one.set(middle, 0, 'A').unwrap();

    assert_eq!(
        one_v_one.collect_combanants(0, middle),
        (vec![middle_attacker.clone()], vec![middle_defender.clone()])
    );

    // 1v2
    let mut one_v_two = Board::from_string(
        [
            "_ _ M _ _",
            "_ _ D _ _",
            "_ L _ R _",
            "_ F _ T _",
            "_ D R D _",
        ]
        .join("\n"),
        vec![Coordinate { x: 2, y: 0 }, Coordinate { x: 2, y: 4 }],
        vec![Direction::North, Direction::South],
    )
    .unwrap();
    one_v_two.set(middle, 0, 'A').unwrap();

    assert_eq!(
        one_v_two.collect_combanants(0, middle),
        (
            vec![middle_attacker.clone()],
            vec![right_defender.clone(), left_defender.clone()],
        )
    );

    // 1v3
    let mut one_v_three = Board::from_string(
        [
            "_ _ M _ _",
            "_ _ D _ _",
            "_ L _ R _",
            "_ F M T _",
            "_ D D D _",
        ]
        .join("\n"),
        vec![Coordinate { x: 2, y: 0 }, Coordinate { x: 2, y: 4 }],
        vec![Direction::North, Direction::South],
    )
    .unwrap();
    one_v_three.set(middle, 0, 'A').unwrap();

    assert_eq!(
        one_v_three.collect_combanants(0, middle),
        (
            vec![middle_attacker.clone()],
            vec![
                middle_defender.clone(),
                cross_defender.clone(),
                right_defender.clone(),
                left_defender.clone(),
            ]
        )
    );

    // 2v2
    let mut two_v_two = Board::from_string(
        [
            "X X M _ _",
            "X _ D _ _",
            "L F _ R _",
            "_ _ M T _",
            "_ _ D D _",
        ]
        .join("\n"),
        vec![Coordinate { x: 2, y: 0 }, Coordinate { x: 2, y: 4 }],
        vec![Direction::North, Direction::South],
    )
    .unwrap();
    two_v_two.set(middle, 0, 'A').unwrap();
    assert_eq!(
        two_v_two.collect_combanants(0, middle),
        (
            vec![middle_attacker, left_attacker],
            vec![middle_defender, short_cross_defender, right_defender],
        )
    );
}

#[test]
fn resolve_successful_attack() {
    let mut b = Board::from_string(
        [
            "_ S X _ _",
            "_ T _ _ _",
            "_ R _ _ _",
            "_ _ I _ _",
            "_ _ T _ _",
        ]
        .join("\n"),
        vec![Coordinate { x: 2, y: 0 }, Coordinate { x: 2, y: 4 }],
        vec![Direction::North, Direction::South],
    )
    .unwrap();
    let mut hands = Hands::new(2, 7, trivial_bag());

    b.make_move(
        Move::Place {
            player: 0,
            tile: 'A',
            position: Coordinate { x: 1, y: 3 },
        },
        &mut hands,
        &short_dict(),
    )
    .unwrap();

    assert_eq!(
        b.to_string(),
        [
            "_ S X _ _",
            "_ T _ _ _",
            "_ R _ _ _",
            "_ A _ _ _",
            "_ _ _ _ _",
        ]
        .join("\n"),
    )
}

#[test]
fn resolve_failed_attack() {
    let mut b = Board::from_string(
        [
            "_ X X _ _",
            "_ T _ _ _",
            "_ R _ _ _",
            "_ _ I _ _",
            "_ _ T _ _",
        ]
        .join("\n"),
        vec![Coordinate { x: 2, y: 0 }, Coordinate { x: 2, y: 4 }],
        vec![Direction::North, Direction::South],
    )
    .unwrap();
    let mut hands = Hands::new(2, 7, trivial_bag());

    b.make_move(
        Move::Place {
            player: 0,
            tile: 'A',
            position: Coordinate { x: 1, y: 3 },
        },
        &mut hands,
        &short_dict(),
    )
    .unwrap();

    assert_eq!(
        b.to_string(),
        [
            "_ _ X _ _",
            "_ _ _ _ _",
            "_ _ _ _ _",
            "_ _ I _ _",
            "_ _ T _ _",
        ]
        .join("\n"),
    )
}

#[test]
fn resolve_truncation() {
    let mut b = Board::from_string(
        [
            "_ S X _ _",
            "_ T _ _ _",
            "_ R _ X _",
            "_ _ B X _",
            "_ _ I _ _",
            "_ _ G _ _",
        ]
        .join("\n"),
        vec![Coordinate { x: 2, y: 0 }, Coordinate { x: 2, y: 5 }],
        vec![Direction::North, Direction::South],
    )
    .unwrap();
    let mut hands = Hands::new(2, 7, trivial_bag());
    let mut test_hands = Hands::new(2, 7, trivial_bag());
    assert_eq!(hands, test_hands);

    b.make_move(
        Move::Place {
            player: 0,
            tile: 'A',
            position: Coordinate { x: 1, y: 3 },
        },
        &mut hands,
        &short_dict(),
    )
    .unwrap();

    for letter in ['B', 'X', 'X'] {
        test_hands.return_tile(letter);
    }
    assert_eq!(hands, test_hands);

    assert_eq!(
        b.to_string(),
        [
            "_ S X _ _",
            "_ T _ _ _",
            "_ R _ _ _",
            "_ A _ _ _",
            "_ _ I _ _",
            "_ _ G _ _",
        ]
        .join("\n"),
    );
}
