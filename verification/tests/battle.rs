use truncate::battle::{Judge, Outcome};

#[test]
#[allow(non_snake_case)]
fn NoBattle_without_combatants() {
    let j = Judge::default();
    assert_eq!(j.Battle(vec!["WORD"], vec![]), Outcome::NoBattle);
    assert_eq!(j.Battle(vec![], vec!["WORD"]), Outcome::NoBattle);
    assert_eq!(j.Battle(vec![], vec![]), Outcome::NoBattle);
}

#[test]
fn battle_attacker_invalid() {
    let j = Judge::default();
    assert_eq!(j.Battle(vec!["XYZ"], vec!["BIG"]), Outcome::DefenderWins);
    assert_eq!(
        j.Battle(vec!["XYZXYZXYZ"], vec!["BIG"]),
        Outcome::DefenderWins
    );
    assert_eq!(
        j.Battle(vec!["XYZ", "JOLLY"], vec!["BIG"]),
        Outcome::DefenderWins
    );
    assert_eq!(
        j.Battle(vec!["BIG", "XYZ"], vec!["BIG"]),
        Outcome::DefenderWins
    );
    assert_eq!(
        j.Battle(vec!["XYZ", "BIG"], vec!["BIG"]),
        Outcome::DefenderWins
    );
}

#[test]
fn battle_defender_invalid() {
    let j = Judge::default();
    assert_eq!(j.Battle(vec!["BIG"], vec!["XYZ"]), Outcome::AttackerWins);
    assert_eq!(
        j.Battle(vec!["BIG"], vec!["XYZXYZXYZ"]),
        Outcome::AttackerWins
    );
    assert_eq!(
        j.Battle(vec!["BIG"], vec!["BIG", "XYZ"]),
        Outcome::AttackerWins
    );
    assert_eq!(
        j.Battle(vec!["BIG"], vec!["XYZ", "BIG"]),
        Outcome::AttackerWins
    );
}

#[test]
fn attacker__weaker() {
    let j = Judge::default();
    assert_eq!(j.Battle(vec!["JOLLY"], vec!["FOLK"]), Outcome::DefenderWins);
    assert_eq!(
        j.Battle(vec!["JOLLY", "BIG"], vec!["FOLK"]),
        Outcome::DefenderWins
    );
}

#[test]
fn defender__weaker() {
    let j = Judge::default();
    assert_eq!(j.Battle(vec!["JOLLY"], vec!["FAT"]), Outcome::AttackerWins);
    assert_eq!(
        j.Battle(vec!["JOLLY", "BIG"], vec!["FAT"]),
        Outcome::AttackerWins
    );
}
