use vstd::prelude::*;

use crate::error::GamePlayError;

verus! {

/// The players' tile racks, together with the shared bag that replacement
/// tiles are drawn from and cleared tiles return to.
#[derive(Debug)]
pub struct Hands {
    pub hands: Vec<Vec<char>>,
    pub bag: Vec<char>,
}

impl Hands {
    /// The racks as mathematical sequences.
    pub open spec fn racks(self) -> Seq<Seq<char>> {
        Seq::new(self.hands@.len(), |i: int| self.hands@[i]@)
    }

    /// Deals `count` tiles to each of `players` players from the front of
    /// `bag`, keeping the rest as the shared bag.
    pub fn new(players: usize, count: usize, bag: Vec<char>) -> (r: Hands)
        requires
            players * count <= bag@.len(),
        ensures
            r.hands@.len() == players,
            forall|i: int|
                0 <= i < players ==> r.racks()[i] == bag@.subrange(
                    i * count,
                    i * count + count,
                ),
            r.bag@ == bag@.skip((players * count) as int),
    {
        let bag_len = bag.len();
        proof {
            assert(players * count <= bag_len);
        }
        let total = players * count;
        let mut hands: Vec<Vec<char>> = Vec::new();
        let mut i: usize = 0;
        let mut off: usize = 0;
        while i < players
            invariant
                i <= players,
                off == i * count,
                total == players * count,
                total <= bag@.len(),
                hands@.len() == i,
                forall|k: int|
                    0 <= k < i ==> hands@[k]@ == bag@.subrange(k * count, k * count + count),
            decreases players - i,
        {
            proof {
                assert((i + 1) * count == i * count + count) by (nonlinear_arith);
                assert((i + 1) * count <= players * count) by (nonlinear_arith)
                    requires
                        i + 1 <= players,
                        0 <= count,
                ;
            }
            let mut hand: Vec<char> = Vec::new();
            let mut j: usize = 0;
            while j < count
                invariant
                    j <= count,
                    off + count <= total,
                    total <= bag@.len(),
                    hand@.len() == j,
                    forall|u: int| 0 <= u < j ==> hand@[u] == bag@[off + u],
                decreases count - j,
            {
                hand.push(bag[off + j]);
                j += 1;
            }
            proof {
                assert(hand@ =~= bag@.subrange(i as int * count, i as int * count + count));
            }
            hands.push(hand);
            off = off + count;
            i += 1;
        }
        let mut rest: Vec<char> = Vec::new();
        let mut k: usize = total;
        while k < bag.len()
            invariant
                total <= k <= bag@.len(),
                rest@.len() == k - total,
                forall|u: int| 0 <= u < k - total ==> rest@[u] == bag@[total + u],
            decreases bag@.len() - k,
        {
            rest.push(bag[k]);
            k += 1;
        }
        proof {
            assert(rest@ =~= bag@.skip(total as int));
        }
        Hands { hands, bag: rest }
    }

    /// Removes the first occurrence of `tile` from the player's rack and
    /// draws one replacement from the bag when one is left.
    pub fn use_tile(&mut self, player: usize, tile: char) -> (r: Result<(), GamePlayError>)
        ensures
            r is Ok <==> player < old(self).hands@.len() && old(self).racks()[player as int]
                .contains(tile),
            r is Err ==> *final(self) == *old(self),
            player >= old(self).hands@.len() ==> r == Err::<(), GamePlayError>(
                GamePlayError::NonExistentPlayer { index: player },
            ),
            player < old(self).hands@.len() && !old(self).racks()[player as int].contains(tile)
                ==> r == Err::<(), GamePlayError>(
                GamePlayError::PlayerDoesNotHaveTile { player, tile },
            ),
            r is Ok ==> {
                &&& final(self).hands@.len() == old(self).hands@.len()
                &&& forall|q: int|
                    0 <= q < old(self).hands@.len() && q != player ==> final(self).racks()[q]
                        == old(self).racks()[q]
                &&& exists|j: int|
                    {
                        &&& 0 <= j < old(self).racks()[player as int].len()
                        &&& old(self).racks()[player as int][j] == tile
                        &&& forall|u: int|
                            0 <= u < j ==> old(self).racks()[player as int][u] != tile
                        &&& final(self).racks()[player as int] == (if old(
                            self,
                        ).bag@.len() > 0 {
                            old(self).racks()[player as int].remove(j).push(old(self).bag@.last())
                        } else {
                            old(self).racks()[player as int].remove(j)
                        })
                    }
                &&& final(self).bag@ == (if old(self).bag@.len() > 0 {
                    old(self).bag@.drop_last()
                } else {
                    old(self).bag@
                })
            },
    {
        if player >= self.hands.len() {
            return Err(GamePlayError::NonExistentPlayer { index: player });
        }
        let ghost rack0 = self.racks()[player as int];
        let mut found: usize = 0;
        let mut tile_found = false;
        let hand_len = self.hands[player].len();
        let mut k: usize = 0;
        while k < hand_len && !tile_found
            invariant
                player < self.hands@.len(),
                hand_len == self.hands@[player as int]@.len(),
                rack0 == self.hands@[player as int]@,
                k <= hand_len,
                !tile_found ==> forall|u: int| 0 <= u < k ==> rack0[u] != tile,
                tile_found ==> found < k <= hand_len && rack0[found as int] == tile && forall|u: int|
                    0 <= u < found ==> rack0[u] != tile,
            decreases hand_len - k + (if tile_found { 0int } else { 1int }),
        {
            if self.hands[player][k] == tile {
                found = k;
                tile_found = true;
            }
            k += 1;
        }
        if !tile_found {
            proof {
                assert(forall|u: int| 0 <= u < rack0.len() ==> rack0[u] != tile);
                if rack0.contains(tile) {
                    let u = choose|u: int| 0 <= u < rack0.len() && rack0[u] == tile;
                    assert(false);
                }
            }
            return Err(GamePlayError::PlayerDoesNotHaveTile { player, tile });
        }
        self.hands[player].remove(found);
        match self.bag.pop() {
            Some(t) => {
                self.hands[player].push(t);
            },
            None => {},
        }
        proof {
            assert(rack0.contains(tile));
            assert forall|q: int|
                0 <= q < old(self).hands@.len() && q != player implies final(self).racks()[q]
                == old(self).racks()[q] by {
                assert(final(self).hands@[q] == old(self).hands@[q]);
            }
            assert(final(self).racks()[player as int] == final(self).hands@[player as int]@);
        }
        Ok(())
    }

    /// Returns a cleared tile to the shared bag.
    pub fn return_tile(&mut self, letter: char)
        ensures
            final(self).hands == old(self).hands,
            final(self).bag@ == old(self).bag@.push(letter),
    {
        self.bag.push(letter);
    }
}

impl Default for Hands {
    /// Two players with empty racks and an empty bag.
    fn default() -> (r: Hands)
        ensures
            r.hands@.len() == 2,
            r.racks()[0].len() == 0,
            r.racks()[1].len() == 0,
            r.bag@.len() == 0,
    {
        let mut hands: Vec<Vec<char>> = Vec::new();
        hands.push(Vec::new());
        hands.push(Vec::new());
        Hands { hands, bag: Vec::new() }
    }
}

/// Character-by-character vector equality.
fn char_vec_eq(a: &Vec<char>, b: &Vec<char>) -> (r: bool)
    ensures
        r == (a@ == b@),
{
    if a.len() != b.len() {
        return false;
    }
    let mut i: usize = 0;
    while i < a.len()
        invariant
            i <= a@.len(),
            a@.len() == b@.len(),
            forall|j: int| 0 <= j < i ==> a@[j] == b@[j],
        decreases a@.len() - i,
    {
        if a[i] != b[i] {
            return false;
        }
        i += 1;
    }
    proof {
        assert(a@ =~= b@);
    }
    true
}

impl PartialEq for Hands {
    /// Two hands are equal when every player holds the same rack.
    fn eq(&self, other: &Hands) -> (r: bool) {
        if self.hands.len() != other.hands.len() {
            return false;
        }
        let mut i: usize = 0;
        while i < self.hands.len()
            invariant
                i <= self.hands@.len(),
                self.hands@.len() == other.hands@.len(),
                forall|j: int| 0 <= j < i ==> self.hands@[j]@ == other.hands@[j]@,
            decreases self.hands@.len() - i,
        {
            if !char_vec_eq(&self.hands[i], &other.hands[i]) {
                proof {
                    assert(self.racks()[i as int] != other.racks()[i as int]);
                }
                return false;
            }
            i += 1;
        }
        proof {
            assert(self.racks() =~= other.racks());
        }
        true
    }
}

impl vstd::std_specs::cmp::PartialEqSpecImpl for Hands {
    open spec fn obeys_eq_spec() -> bool {
        true
    }

    open spec fn eq_spec(&self, other: &Hands) -> bool {
        self.racks() == other.racks()
    }
}

} // verus!
