use truncate::board::{Board, Coordinate, Direction};
use truncate::judge::{Judge, Outcome};

#[test]
fn no_battle_without_combatants() {
    let j = Judge::short_dict();
    assert_eq!(j.battle(vec![word()], vec![]), Outcome::NoBattle);
    assert_eq!(j.battle(vec![], vec![word()]), Outcome::NoBattle);
    assert_eq!(j.battle(vec![], vec![]), Outcome::NoBattle);
}

#[test]
fn judge_attacker_invalid() {
    let j = Judge::short_dict();
    assert_eq!(j.battle(vec![xyz()], vec![big()]), Outcome::DefenderWins);
    assert_eq!(
        j.battle(vec![long_xyz()], vec![big()]),
        Outcome::DefenderWins
    );
    assert_eq!(
        j.battle(vec![xyz(), jolly()], vec![big()]),
        Outcome::DefenderWins
    );
    assert_eq!(
        j.battle(vec![big(), xyz()], vec![big()]),
        Outcome::DefenderWins
    );
    assert_eq!(
        j.battle(vec![xyz(), big()], vec![big()]),
        Outcome::DefenderWins
    );
}

#[test]
fn judge_defender_invalid() {
    let j = Judge::short_dict();
    assert_eq!(
        j.battle(vec![big()], vec![xyz()]),
        Outcome::AttackerWins(vec![0])
    );
    assert_eq!(
        j.battle(vec![big()], vec![long_xyz()]),
        Outcome::AttackerWins(vec![0])
    );
    assert_eq!(
        j.battle(vec![big()], vec![big(), xyz()]),
        Outcome::AttackerWins(vec![1])
    );
    assert_eq!(
        j.battle(vec![big()], vec![xyz(), big()]),
        Outcome::AttackerWins(vec![0])
    );
}

#[test]
fn attacker_weaker() {
    let j = Judge::short_dict();
    assert_eq!(j.battle(vec![jolly()], vec![folk()]), Outcome::DefenderWins);
    assert_eq!(
        j.battle(vec![jolly(), big()], vec![folk()]),
        Outcome::DefenderWins
    );
}

#[test]
fn defender_weaker() {
    let j = Judge::short_dict();
    assert_eq!(
        j.battle(vec![jolly()], vec![fat()]),
        Outcome::AttackerWins(vec![0])
    );
    assert_eq!(
        j.battle(vec![jolly(), big()], vec![fat()]),
        Outcome::AttackerWins(vec![0])
    );
    assert_eq!(
        j.battle(
            vec![jolly()],
            vec![fat(), big(), jolly(), folk(), long_xyz()]
        ),
        Outcome::AttackerWins(vec![0, 1, 4])
    );
}

#[test]
fn win_condition() {
    let mut b = Board::from_string(
        [
            "X _ _ _ _",
            "X _ _ _ _",
            "X _ _ _ _",
            "X _ _ _ _",
            "X _ _ _ _",
            "_ _ _ _ _",
        ]
        .join("\n"),
        vec![Coordinate { x: 0, y: 0 }],
        vec![Direction::North],
    )
    .unwrap();

    assert_eq!(Judge::winner(&b), None);
    b.set(Coordinate { x: 0, y: 5 }, 0, 'X').unwrap();
    assert_eq!(Judge::winner(&b), Some(0));
}

// Utils
fn jolly() -> String {
    String::from("JOLLY")
}
fn word() -> String {
    String::from("WORD")
}
fn xyz() -> String {
    String::from("XYZ")
}
fn big() -> String {
    String::from("BIG")
}
fn long_xyz() -> String {
    String::from("XYZXYZXYZ")
}
fn folk() -> String {
    String::from("FOLK")
}
fn fat() -> String {
    String::from("FAT")
}
