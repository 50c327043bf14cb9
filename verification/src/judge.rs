use vstd::prelude::*;

use crate::board::{edge_view, occupied_by, Board, Square};

verus! {

/// How a battle ends. When the attacker wins, the payload lists the positions
/// (into the defender word list) of the words that are destroyed.
#[derive(Debug, PartialEq, Eq)]
pub enum Outcome {
    AttackerWins(Vec<usize>),
    DefenderWins,
    NoBattle,
}

/// Judges battles against an immutable dictionary of accepted words.
pub struct Judge {
    pub dictionary: Vec<String>,
}

/// The word is an exact, case-sensitive member of the dictionary.
pub open spec fn in_dict(dict: Seq<Seq<char>>, w: Seq<char>) -> bool {
    exists|i: int| 0 <= i < dict.len() && dict[i] == w
}

pub open spec fn all_attackers_valid(dict: Seq<Seq<char>>, atts: Seq<Seq<char>>) -> bool {
    forall|i: int| 0 <= i < atts.len() ==> in_dict(dict, #[trigger] atts[i])
}

/// The length of the longest word in the list; 0 for an empty list.
pub open spec fn max_word_len(words: Seq<Seq<char>>) -> nat
    decreases words.len(),
{
    if words.len() == 0 {
        0
    } else {
        let rest = max_word_len(words.drop_last());
        if words.last().len() > rest {
            words.last().len()
        } else {
            rest
        }
    }
}

/// A defending word falls unless it is in the dictionary and within one
/// letter of the longest attacker (the defender's advantage).
pub open spec fn weak_defender(dict: Seq<Seq<char>>, longest: nat, w: Seq<char>) -> bool {
    !in_dict(dict, w) || w.len() + 1 < longest
}

/// The positions of the weak defender words, in ascending order.
pub open spec fn weak_indices(dict: Seq<Seq<char>>, longest: nat, defs: Seq<Seq<char>>) -> Seq<
    usize,
>
    decreases defs.len(),
{
    if defs.len() == 0 {
        Seq::empty()
    } else {
        let front = weak_indices(dict, longest, defs.drop_last());
        if weak_defender(dict, longest, defs.last()) {
            front.push((defs.len() - 1) as usize)
        } else {
            front
        }
    }
}

/// The full adjudication rule, relating the two word lists to the outcome.
pub open spec fn battle_post(
    dict: Seq<Seq<char>>,
    atts: Seq<Seq<char>>,
    defs: Seq<Seq<char>>,
    r: Outcome,
) -> bool {
    if atts.len() == 0 || defs.len() == 0 {
        r == Outcome::NoBattle
    } else if !all_attackers_valid(dict, atts) {
        r == Outcome::DefenderWins
    } else if weak_indices(dict, max_word_len(atts), defs).len() == 0 {
        r == Outcome::DefenderWins
    } else {
        match r {
            Outcome::AttackerWins(v) => v@ == weak_indices(dict, max_word_len(atts), defs),
            _ => false,
        }
    }
}

/// Character-by-character string equality, proved against the string views.
pub(crate) fn str_eq(a: &str, b: &str) -> (r: bool)
    ensures
        r == (a@ == b@),
{
    let a_len = a.unicode_len();
    let b_len = b.unicode_len();
    if a_len != b_len {
        return false;
    }
    let mut i: usize = 0;
    while i < a_len
        invariant
            i <= a_len,
            a_len == a@.len(),
            a_len == b@.len(),
            forall|j: int| 0 <= j < i ==> a@[j] == b@[j],
        decreases a_len - i,
    {
        if a.get_char(i) != b.get_char(i) {
            return false;
        }
        i += 1;
    }
    proof {
        assert(a@ =~= b@);
    }
    true
}

impl Judge {
    pub open spec fn dict(self) -> Seq<Seq<char>> {
        self.dictionary.deep_view()
    }

    pub fn new(words: Vec<&str>) -> (r: Self)
        ensures
            r.dict() == words.deep_view(),
    {
        let mut dictionary: Vec<String> = Vec::new();
        let mut i: usize = 0;
        while i < words.len()
            invariant
                i <= words.len(),
                dictionary@.len() == i,
                forall|j: int| 0 <= j < i ==> dictionary@[j]@ == words@[j]@,
            decreases words.len() - i,
        {
            dictionary.push(words[i].to_owned());
            i += 1;
        }
        proof {
            assert(dictionary.deep_view() =~= words.deep_view());
        }
        Judge { dictionary }
    }

    /// A small fixed dictionary, handy for tests and examples.
    pub fn short_dict() -> (r: Self)
        ensures
            r.dict().len() == 7,
            r.dict() == Self::short_dict_words(),
    {
        let j = Judge::new(vec!["BIG", "FAT", "JOLLY", "AND", "SILLY", "FOLK", "ARTS"]);
        proof {
            assert(j.dict() =~= Self::short_dict_words());
        }
        j
    }

    pub open spec fn short_dict_words() -> Seq<Seq<char>> {
        seq!["BIG"@, "FAT"@, "JOLLY"@, "AND"@, "SILLY"@, "FOLK"@, "ARTS"@]
    }

    pub fn valid(&self, word: &String) -> (r: bool)
        ensures
            r == in_dict(self.dict(), word@),
    {
        let mut i: usize = 0;
        while i < self.dictionary.len()
            invariant
                i <= self.dictionary@.len(),
                forall|j: int| 0 <= j < i ==> self.dictionary@[j]@ != word@,
            decreases self.dictionary@.len() - i,
        {
            proof {
                assert(self.dict()[i as int] == self.dictionary@[i as int]@);
            }
            if self.dictionary[i].eq(word) {
                return true;
            }
            i += 1;
        }
        proof {
            assert forall|k: int| 0 <= k < self.dict().len() implies self.dict()[k] != word@ by {
                assert(self.dict()[k] == self.dictionary@[k]@);
            }
        }
        false
    }

    /// Adjudicates one battle. No combatants, no battle; an invalid attacking
    /// word loses outright; otherwise every weak defender word falls.
    pub fn battle(&self, attackers: Vec<String>, defenders: Vec<String>) -> (r: Outcome)
        ensures
            battle_post(self.dict(), attackers.deep_view(), defenders.deep_view(), r),
    {
        let ghost dict = self.dict();
        let ghost atts = attackers.deep_view();
        let ghost defs = defenders.deep_view();
        if attackers.len() == 0 || defenders.len() == 0 {
            return Outcome::NoBattle;
        }
        // The defender wins if any attacking word is invalid.
        let mut i: usize = 0;
        let mut any_invalid = false;
        while i < attackers.len()
            invariant
                i <= attackers@.len(),
                atts == attackers.deep_view(),
                dict == self.dict(),
                any_invalid == exists|j: int| 0 <= j < i && !in_dict(dict, #[trigger] atts[j]),
            decreases attackers@.len() - i,
        {
            proof {
                assert(atts[i as int] == attackers@[i as int]@);
            }
            if !self.valid(&attackers[i]) {
                any_invalid = true;
            }
            i += 1;
        }
        if any_invalid {
            return Outcome::DefenderWins;
        }
        assert(all_attackers_valid(dict, atts));
        // The longest attacking word sets the attacking strength.
        let mut longest: usize = 0;
        i = 0;
        while i < attackers.len()
            invariant
                i <= attackers@.len(),
                atts == attackers.deep_view(),
                longest == max_word_len(atts.take(i as int)),
            decreases attackers@.len() - i,
        {
            let len = attackers[i].as_str().unicode_len();
            proof {
                assert(atts[i as int] == attackers@[i as int]@);
                assert(atts.take(i + 1).drop_last() =~= atts.take(i as int));
                assert(atts.take(i + 1).last() == atts[i as int]);
            }
            if len > longest {
                longest = len;
            }
            i += 1;
        }
        proof {
            assert(atts.take(attackers@.len() as int) =~= atts);
        }
        // Collect the positions of the weak defender words.
        let mut weak: Vec<usize> = Vec::new();
        i = 0;
        while i < defenders.len()
            invariant
                i <= defenders@.len(),
                defs == defenders.deep_view(),
                dict == self.dict(),
                longest == max_word_len(atts),
                weak@ == weak_indices(dict, longest as nat, defs.take(i as int)),
            decreases defenders@.len() - i,
        {
            let len = defenders[i].as_str().unicode_len();
            let valid_word = self.valid(&defenders[i]);
            proof {
                assert(defs[i as int] == defenders@[i as int]@);
                assert(defs.take(i + 1).drop_last() =~= defs.take(i as int));
                assert(defs.take(i + 1).last() == defs[i as int]);
            }
            if !valid_word || (longest > len && longest - len > 1) {
                weak.push(i);
            }
            i += 1;
        }
        proof {
            assert(defs.take(defenders@.len() as int) =~= defs);
        }
        if weak.len() == 0 {
            Outcome::DefenderWins
        } else {
            Outcome::AttackerWins(weak)
        }
    }
}

/// Position `i` is listed among the weak defenders exactly when the word at
/// `i` is weak; the judgment of one word never depends on the others.
pub proof fn lemma_weak_indices_membership(
    dict: Seq<Seq<char>>,
    longest: nat,
    defs: Seq<Seq<char>>,
    i: usize,
)
    requires
        i < defs.len(),
        defs.len() <= usize::MAX,
    ensures
        weak_indices(dict, longest, defs).contains(i) <==> weak_defender(
            dict,
            longest,
            defs[i as int],
        ),
    decreases defs.len(),
{
    lemma_weak_indices_range(dict, longest, defs);
    let front = weak_indices(dict, longest, defs.drop_last());
    let full = weak_indices(dict, longest, defs);
    lemma_weak_indices_range(dict, longest, defs.drop_last());
    if i + 1 < defs.len() {
        lemma_weak_indices_membership(dict, longest, defs.drop_last(), i);
        assert(defs.drop_last()[i as int] == defs[i as int]);
        if weak_defender(dict, longest, defs.last()) {
            assert(full == front.push((defs.len() - 1) as usize));
            if front.contains(i) {
                let k = choose|k: int| 0 <= k < front.len() && front[k] == i;
                assert(full[k] == i);
            }
            if full.contains(i) {
                let k = choose|k: int| 0 <= k < full.len() && full[k] == i;
                if k == front.len() {
                    assert(full[k] == (defs.len() - 1) as usize);
                    assert(false);
                }
                assert(front[k] == i);
            }
        }
    } else {
        // i is the last position.
        if weak_defender(dict, longest, defs.last()) {
            assert(full == front.push((defs.len() - 1) as usize));
            assert(full[full.len() - 1] == i);
            assert(full.contains(i));
        } else {
            assert(full == front);
            if full.contains(i) {
                let k = choose|k: int| 0 <= k < front.len() && front[k] == i;
                assert(front[k] < defs.drop_last().len());
                assert(false);
            }
        }
    }
}

/// Every listed weak index refers to a defender position.
pub proof fn lemma_weak_indices_range(dict: Seq<Seq<char>>, longest: nat, defs: Seq<Seq<char>>)
    requires
        defs.len() <= usize::MAX,
    ensures
        forall|k: int|
            0 <= k < weak_indices(dict, longest, defs).len() ==> #[trigger] weak_indices(
                dict,
                longest,
                defs,
            )[k] < defs.len(),
    decreases defs.len(),
{
    if defs.len() > 0 {
        lemma_weak_indices_range(dict, longest, defs.drop_last());
        let front = weak_indices(dict, longest, defs.drop_last());
        let full = weak_indices(dict, longest, defs);
        assert forall|k: int| 0 <= k < full.len() implies full[k] < defs.len() by {
            if weak_defender(dict, longest, defs.last()) {
                assert(full == front.push((defs.len() - 1) as usize));
                if k < front.len() {
                    assert(full[k] == front[k]);
                    assert(front[k] < defs.drop_last().len());
                } else {
                    assert(full[k] == (defs.len() - 1) as usize);
                }
            } else {
                assert(full == front);
                assert(front[k] < defs.drop_last().len());
            }
        }
    }
}

/// A battle with no attackers or no defenders is no battle at all.
pub proof fn lemma_no_combatants_no_battle(
    dict: Seq<Seq<char>>,
    atts: Seq<Seq<char>>,
    defs: Seq<Seq<char>>,
    r: Outcome,
)
    requires
        battle_post(dict, atts, defs, r),
        atts.len() == 0 || defs.len() == 0,
    ensures
        r == Outcome::NoBattle,
{
}

/// One attacking word outside the dictionary costs the attacker everything,
/// whatever the defenders look like.
pub proof fn lemma_invalid_attacker_defender_wins(
    dict: Seq<Seq<char>>,
    atts: Seq<Seq<char>>,
    defs: Seq<Seq<char>>,
    r: Outcome,
    i: int,
)
    requires
        battle_post(dict, atts, defs, r),
        atts.len() > 0,
        defs.len() > 0,
        0 <= i < atts.len(),
        !in_dict(dict, atts[i]),
    ensures
        r == Outcome::DefenderWins,
{
    assert(!all_attackers_valid(dict, atts));
}

/// The defender word at position `i` survives the outcome.
pub open spec fn survives(r: Outcome, i: usize) -> bool {
    match r {
        Outcome::AttackerWins(v) => !v@.contains(i),
        _ => true,
    }
}

/// A defender survives exactly when it is in the dictionary and within one
/// letter of the longest attacker: a strict per-word threshold, independent
/// of the other defenders.
pub proof fn lemma_defender_survival(
    dict: Seq<Seq<char>>,
    atts: Seq<Seq<char>>,
    defs: Seq<Seq<char>>,
    r: Outcome,
    i: usize,
)
    requires
        battle_post(dict, atts, defs, r),
        atts.len() > 0,
        defs.len() > 0,
        all_attackers_valid(dict, atts),
        i < defs.len(),
        defs.len() <= usize::MAX,
    ensures
        survives(r, i) <==> (in_dict(dict, defs[i as int]) && defs[i as int].len() + 1
            >= max_word_len(atts)),
{
    let longest = max_word_len(atts);
    let w = weak_indices(dict, longest, defs);
    lemma_weak_indices_membership(dict, longest, defs, i);
    if w.len() == 0 {
        assert(r == Outcome::DefenderWins);
        assert(!w.contains(i));
    }
}


/// Player `p` holds a tile on the edge opposite their reading orientation.
pub open spec fn edge_winner_at(b: Board, p: usize) -> bool {
    exists|i: int|
        0 <= i < edge_view(b.grid(), b.orientations@[p as int].opposite_spec()).len()
            && occupied_by(
            b.grid(),
            #[trigger] edge_view(b.grid(), b.orientations@[p as int].opposite_spec())[i],
            p,
        )
}

impl Judge {
    /// The first player holding a tile on the edge opposite their own:
    /// reaching the far side of the board wins the game.
    pub fn winner(board: &Board) -> (r: Option<usize>)
        requires
            board.wf(),
        ensures
            r matches Some(p) ==> p < board.orientations@.len() && edge_winner_at(*board, p)
                && forall|q: usize| q < p ==> !edge_winner_at(*board, q),
            r is None ==> forall|q: usize|
                q < board.orientations@.len() ==> !edge_winner_at(*board, q),
    {
        let n = board.get_orientations().len();
        let mut p: usize = 0;
        while p < n
            invariant
                p <= n,
                n == board.orientations@.len(),
                board.wf(),
                forall|q: usize| q < p ==> !edge_winner_at(*board, q),
            decreases n - p,
        {
            let d = board.get_orientations()[p];
            let edge = board.get_edge(d.opposite());
            let mut i: usize = 0;
            while i < edge.len()
                invariant
                    i <= edge@.len(),
                    p < board.orientations@.len(),
                    forall|q: usize| q < p ==> !edge_winner_at(*board, q),
                    edge@ == edge_view(
                        board.grid(),
                        board.orientations@[p as int].opposite_spec(),
                    ),
                    forall|u: int|
                        0 <= u < i ==> !occupied_by(board.grid(), #[trigger] edge@[u], p),
                decreases edge@.len() - i,
            {
                match board.get(edge[i]) {
                    Ok(Square::Occupied(q, _)) => {
                        if q == p {
                            proof {
                                assert(occupied_by(board.grid(), edge@[i as int], p));
                            }
                            return Some(p);
                        }
                    },
                    _ => {},
                }
                i += 1;
            }
            proof {
                assert(!edge_winner_at(*board, p));
            }
            p += 1;
        }
        None
    }
}

} // verus!
