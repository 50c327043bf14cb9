use vstd::prelude::*;

use crate::judge::{all_attackers_valid, in_dict, max_word_len, str_eq, weak_defender};

verus! {

/// How a battle ends when only the overall winner matters.
#[derive(Debug, PartialEq, Eq)]
pub enum Outcome {
    AttackerWins,
    DefenderWins,
    NoBattle,
}

/// Judges battles against an immutable dictionary of accepted words,
/// reporting only which side wins.
pub struct Judge {
    pub dictionary: Vec<String>,
}

/// The adjudication rule: no combatants means no battle; an invalid attacking
/// word loses outright; the defender wins when every defending word is in the
/// dictionary and within one letter of the longest attacker.
pub open spec fn battle_winner_post(
    dict: Seq<Seq<char>>,
    atts: Seq<Seq<char>>,
    defs: Seq<Seq<char>>,
    r: Outcome,
) -> bool {
    if atts.len() == 0 || defs.len() == 0 {
        r == Outcome::NoBattle
    } else if !all_attackers_valid(dict, atts) {
        r == Outcome::DefenderWins
    } else if forall|i: int|
        0 <= i < defs.len() ==> !weak_defender(dict, max_word_len(atts), #[trigger] defs[i]) {
        r == Outcome::DefenderWins
    } else {
        r == Outcome::AttackerWins
    }
}

impl Judge {
    pub open spec fn dict(self) -> Seq<Seq<char>> {
        self.dictionary.deep_view()
    }

    pub fn new(words: Vec<&str>) -> (r: Self)
        ensures
            r.dict() == words.deep_view(),
    {
        let mut dictionary: Vec<String> = Vec::new();
        let mut i: usize = 0;
        while i < words.len()
            invariant
                i <= words.len(),
                dictionary@.len() == i,
                forall|j: int| 0 <= j < i ==> dictionary@[j]@ == words@[j]@,
            decreases words.len() - i,
        {
            dictionary.push(words[i].to_owned());
            i += 1;
        }
        proof {
            assert(dictionary.deep_view() =~= words.deep_view());
        }
        Judge { dictionary }
    }

    /// A judge over a small fixed word list.
    pub fn default() -> (r: Self)
        ensures
            r.dict() == Self::default_words(),
    {
        let j = Self::new(vec!["BIG", "FAT", "JOLLY", "AND", "SILLY", "FOLK"]);
        proof {
            assert(j.dict() =~= Self::default_words());
        }
        j
    }

    pub open spec fn default_words() -> Seq<Seq<char>> {
        seq!["BIG"@, "FAT"@, "JOLLY"@, "AND"@, "SILLY"@, "FOLK"@]
    }

    /// Adjudicates one battle between attacking and defending words.
    #[allow(non_snake_case)]
    pub fn Battle(&self, attackers: Vec<&str>, defenders: Vec<&str>) -> (r: Outcome)
        ensures
            battle_winner_post(self.dict(), attackers.deep_view(), defenders.deep_view(), r),
    {
        let ghost dict = self.dict();
        let ghost atts = attackers.deep_view();
        let ghost defs = defenders.deep_view();
        if attackers.len() == 0 || defenders.len() == 0 {
            return Outcome::NoBattle;
        }
        // The defender wins if any attacking word is invalid.
        let mut i: usize = 0;
        let mut any_invalid = false;
        while i < attackers.len()
            invariant
                i <= attackers@.len(),
                atts == attackers.deep_view(),
                dict == self.dict(),
                any_invalid == exists|j: int| 0 <= j < i && !in_dict(dict, #[trigger] atts[j]),
            decreases attackers@.len() - i,
        {
            proof {
                assert(atts[i as int] == attackers@[i as int]@);
            }
            if !self.valid(attackers[i]) {
                any_invalid = true;
            }
            i += 1;
        }
        if any_invalid {
            return Outcome::DefenderWins;
        }
        assert(all_attackers_valid(dict, atts));
        // The longest attacking word sets the attacking strength.
        let mut longest: usize = 0;
        i = 0;
        while i < attackers.len()
            invariant
                i <= attackers@.len(),
                atts == attackers.deep_view(),
                longest == max_word_len(atts.take(i as int)),
            decreases attackers@.len() - i,
        {
            let len = attackers[i].unicode_len();
            proof {
                assert(atts[i as int] == attackers@[i as int]@);
                assert(atts.take(i + 1).drop_last() =~= atts.take(i as int));
                assert(atts.take(i + 1).last() == atts[i as int]);
            }
            if len > longest {
                longest = len;
            }
            i += 1;
        }
        proof {
            assert(atts.take(attackers@.len() as int) =~= atts);
        }
        // The defender wins if every defending word is strong enough.
        let mut all_strong = true;
        i = 0;
        while i < defenders.len()
            invariant
                i <= defenders@.len(),
                defs == defenders.deep_view(),
                dict == self.dict(),
                longest == max_word_len(atts),
                all_strong == forall|j: int|
                    0 <= j < i ==> !weak_defender(dict, longest as nat, #[trigger] defs[j]),
            decreases defenders@.len() - i,
        {
            let len = defenders[i].unicode_len();
            let valid_word = self.valid(defenders[i]);
            proof {
                assert(defs[i as int] == defenders@[i as int]@);
            }
            if !valid_word || (longest > len && longest - len > 1) {
                all_strong = false;
            }
            i += 1;
        }
        if all_strong {
            Outcome::DefenderWins
        } else {
            Outcome::AttackerWins
        }
    }

    fn valid(&self, word: &str) -> (r: bool)
        ensures
            r == in_dict(self.dict(), word@),
    {
        let mut i: usize = 0;
        while i < self.dictionary.len()
            invariant
                i <= self.dictionary@.len(),
                forall|j: int| 0 <= j < i ==> self.dictionary@[j]@ != word@,
            decreases self.dictionary@.len() - i,
        {
            proof {
                assert(self.dict()[i as int] == self.dictionary@[i as int]@);
            }
            if str_eq(self.dictionary[i].as_str(), word) {
                return true;
            }
            i += 1;
        }
        proof {
            assert forall|k: int| 0 <= k < self.dict().len() implies self.dict()[k] != word@ by {
                assert(self.dict()[k] == self.dictionary@[k]@);
            }
        }
        false
    }
}

} // verus!
