use vstd::prelude::*;

use crate::board::{
    cell, grid_connected, in_bounds, is_occupied, neighbours_view, occupied_by, put_view,
    reachable, set_view, Board, Coordinate, GridView, Square,
};
use crate::discover::{
    nested_view, owner_at, strings_of, words_all_occupied, words_through,
};
use crate::error::GamePlayError;
use crate::hand::Hands;
use crate::judge::{
    all_attackers_valid, battle_post, max_word_len, weak_indices, Judge, Outcome,
};
use crate::truncation::truncate_view;

verus! {

/// One move of the game: place a tile from the rack, or swap two of the
/// player's own letters. A swap triggers no battle.
pub enum Move {
    Place { player: usize, tile: char, position: Coordinate },
    Swap { player: usize, positions: [Coordinate; 2] },
}

/// Every tile on the grid is owned by a player index below `n`.
pub open spec fn owners_ok(g: GridView, n: nat) -> bool {
    forall|c: Coordinate, p: usize| #[trigger] occupied_by(g, c, p) ==> p < n
}

pub open spec fn is_friend(sq: Square, p: usize) -> bool {
    match sq {
        Square::Occupied(q, _) => q == p,
        _ => false,
    }
}

/// Some cardinal neighbour of `c` already holds a tile of player `p`.
pub open spec fn has_friendly_neighbour(g: GridView, c: Coordinate, p: usize) -> bool {
    exists|i: int|
        0 <= i < neighbours_view(g, c).len() && is_friend(#[trigger] neighbours_view(g, c)[i].1, p)
}

pub open spec fn is_enemy(sq: Square, p: usize) -> bool {
    match sq {
        Square::Occupied(q, _) => q != p,
        _ => false,
    }
}

/// The defender words collected from a list of neighbouring squares: the
/// words through every neighbour held by another player, in neighbour order.
pub open spec fn defenders_from_entries(
    g: GridView,
    orients: Seq<crate::board::Direction>,
    player: usize,
    entries: Seq<(Coordinate, Square)>,
) -> Seq<Seq<Coordinate>>
    decreases entries.len(),
{
    if entries.len() == 0 {
        Seq::empty()
    } else {
        defenders_from_entries(g, orients, player, entries.drop_last()) + (if is_enemy(
            entries.last().1,
            player,
        ) {
            words_through(g, orients, entries.last().0)
        } else {
            Seq::empty()
        })
    }
}

/// All defender words for a placement at `c`.
pub open spec fn defenders_view(
    g: GridView,
    orients: Seq<crate::board::Direction>,
    player: usize,
    c: Coordinate,
) -> Seq<Seq<Coordinate>> {
    defenders_from_entries(g, orients, player, neighbours_view(g, c))
}

/// The square `target` is cleared by the battle that a placement at `c`
/// triggers: when the defender wins, every attacker square falls; when the
/// attacker wins, the squares of every weak defender word fall.
pub open spec fn resolve_cleared(
    g: GridView,
    orients: Seq<crate::board::Direction>,
    dict: Seq<Seq<char>>,
    player: usize,
    c: Coordinate,
    target: Coordinate,
) -> bool {
    let atts = words_through(g, orients, c);
    let defs = defenders_view(g, orients, player, c);
    let aw = strings_of(g, atts);
    let dw = strings_of(g, defs);
    if atts.len() == 0 || defs.len() == 0 {
        false
    } else if !all_attackers_valid(dict, aw) || weak_indices(dict, max_word_len(aw), dw).len()
        == 0 {
        exists|a: int, b: int|
            #![auto]
            0 <= a < atts.len() && 0 <= b < atts[a].len() && atts[a][b] == target
    } else {
        let wi = weak_indices(dict, max_word_len(aw), dw);
        exists|a: int, b: int|
            #![auto]
            0 <= a < wi.len() && 0 <= b < defs[wi[a] as int].len() && defs[wi[a] as int][b]
                == target
    }
}

/// The grid after the battle's removals, before truncation.
pub open spec fn resolve_view(
    g: GridView,
    orients: Seq<crate::board::Direction>,
    dict: Seq<Seq<char>>,
    player: usize,
    c: Coordinate,
) -> GridView {
    Seq::new(
        g.len(),
        |y: int|
            Seq::new(
                g[y].len(),
                |x: int|
                    if resolve_cleared(
                        g,
                        orients,
                        dict,
                        player,
                        c,
                        Coordinate { x: x as usize, y: y as usize },
                    ) {
                        Some(Square::Empty)
                    } else {
                        g[y][x]
                    },
            ),
    )
}

/// The first validation error a placement runs into, if any.
pub open spec fn place_error(
    b: Board,
    h: Hands,
    player: usize,
    tile: char,
    position: Coordinate,
) -> Option<GamePlayError> {
    if !in_bounds(b.grid(), position) {
        Some(GamePlayError::OutSideBoardDimensions { position })
    } else if cell(b.grid(), position) is None {
        Some(GamePlayError::InvalidPosition { position })
    } else if is_occupied(b.grid(), position) {
        Some(GamePlayError::OccupiedPlace)
    } else if player >= b.roots@.len() {
        Some(GamePlayError::NonExistentPlayer { index: player })
    } else if position != b.roots@[player as int] && !has_friendly_neighbour(
        b.grid(),
        position,
        player,
    ) {
        Some(GamePlayError::NonAdjacentPlace)
    } else if player >= h.hands@.len() {
        Some(GamePlayError::NonExistentPlayer { index: player })
    } else if !h.racks()[player as int].contains(tile) {
        Some(GamePlayError::PlayerDoesNotHaveTile { player, tile })
    } else {
        None
    }
}

/// All letters a placement sends back to the bag: those of the battle's
/// removals, then those of the truncation pass, in clearing order.
pub open spec fn place_returned(
    b: Board,
    dict: Seq<Seq<char>>,
    player: usize,
    tile: char,
    position: Coordinate,
) -> Seq<char> {
    let g1 = set_view(b.grid(), position, player, tile);
    let rv = resolve_view(g1, b.orientations@, dict, player, position);
    battle_returned(g1, b.orientations@, dict, player, position) + crate::truncation::cut_letters(
        rv,
        b.roots@,
        rv.len() as int,
    )
}

/// The player's rack after one tile was used: the first occurrence of the
/// tile is gone and, when the bag was not empty, its last tile was drawn.
pub open spec fn rack_after_use(old_h: Hands, new_h: Hands, player: usize, tile: char) -> bool {
    exists|j: int|
        {
            &&& 0 <= j < old_h.racks()[player as int].len()
            &&& old_h.racks()[player as int][j] == tile
            &&& (forall|u: int| 0 <= u < j ==> old_h.racks()[player as int][u] != tile)
            &&& new_h.racks()[player as int] == (if old_h.bag@.len() > 0 {
                old_h.racks()[player as int].remove(j).push(old_h.bag@.last())
            } else {
                old_h.racks()[player as int].remove(j)
            })
        }
}

/// Writing one square changes that square and nothing else.
proof fn lemma_put_view_frame(g: GridView, c: Coordinate, v: Square)
    requires
        in_bounds(g, c),
    ensures
        put_view(g, c, v).len() == g.len(),
        forall|yy: int| 0 <= yy < g.len() ==> (#[trigger] put_view(g, c, v)[yy]).len() == g[
            yy
        ].len(),
        forall|yy: int, xx: int|
            0 <= yy < g.len() && 0 <= xx < g[yy].len() && !(yy == c.y && xx == c.x)
                ==> #[trigger] put_view(g, c, v)[yy][xx] == g[yy][xx],
        put_view(g, c, v)[c.y as int][c.x as int] == Some(v),
{
    let g2 = put_view(g, c, v);
    assert forall|yy: int, xx: int|
        0 <= yy < g.len() && 0 <= xx < g[yy].len() && !(yy == c.y && xx == c.x) implies #[trigger] g2[yy][xx]
        == g[yy][xx] by {
        if yy == c.y as int {
            assert(g2[yy] == g[yy].update(c.x as int, Some(v)));
        } else {
            assert(g2[yy] == g[yy]);
        }
    }
}

/// Two grids with the same occupancy satisfy the same connectivity facts.
proof fn lemma_same_occupancy_connected(g1: GridView, g2: GridView, roots: Seq<Coordinate>)
    requires
        forall|c: Coordinate, p: usize|
            #[trigger] occupied_by(g1, c, p) <==> #[trigger] occupied_by(g2, c, p),
        grid_connected(g1, roots),
    ensures
        grid_connected(g2, roots),
{
    assert forall|c: Coordinate, p: usize| #[trigger] occupied_by(g2, c, p) implies reachable(
        g2,
        roots,
        p,
        c,
    ) by {
        assert(occupied_by(g1, c, p));
        assert(reachable(g1, roots, p, c));
        let w = choose|w: Seq<Coordinate>|
            crate::board::is_path(g1, p, w) && w.first() == roots[p as int] && w.last() == c;
        assert forall|i: int| 0 <= i < w.len() implies occupied_by(g2, #[trigger] w[i], p) by {
            assert(occupied_by(g1, w[i], p));
        }
        assert(crate::board::is_path(g2, p, w));
    }
}

impl Board {
    /// The attacker words through the just-placed square, and the defender
    /// words through every neighbouring enemy square.
    pub fn collect_combanants(&self, player: usize, position: Coordinate) -> (r: (
        Vec<Vec<Coordinate>>,
        Vec<Vec<Coordinate>>,
    ))
        requires
            self.wf(),
            owners_ok(self.grid(), self.orientations@.len()),
        ensures
            nested_view(r.0@) == words_through(self.grid(), self.orientations@, position),
            nested_view(r.1@) == defenders_view(
                self.grid(),
                self.orientations@,
                player,
                position,
            ),
            words_all_occupied(self.grid(), nested_view(r.0@)),
            words_all_occupied(self.grid(), nested_view(r.1@)),
    {
        let ghost g = self.grid();
        let ghost orients = self.orientations@;
        proof {
            if is_occupied(g, position) {
                assert(occupied_by(g, position, owner_at(g, position)));
            }
        }
        let attackers = self.get_words(position);
        let neighbours = self.neighbouring_squares(position);
        let mut defenders: Vec<Vec<Coordinate>> = Vec::new();
        let mut i: usize = 0;
        while i < neighbours.len()
            invariant
                i <= neighbours@.len(),
                g == self.grid(),
                orients == self.orientations@,
                self.wf(),
                owners_ok(g, orients.len()),
                neighbours@ == neighbours_view(g, position),
                nested_view(defenders@) == defenders_from_entries(
                    g,
                    orients,
                    player,
                    neighbours@.take(i as int),
                ),
                words_all_occupied(g, nested_view(defenders@)),
            decreases neighbours@.len() - i,
        {
            let (nc, sq) = neighbours[i];
            let ghost defs0 = nested_view(defenders@);
            proof {
                assert(neighbours@.take(i + 1).drop_last() =~= neighbours@.take(i as int));
                assert(neighbours@.take(i + 1).last() == neighbours@[i as int]);
            }
            let enemy = match sq {
                Square::Occupied(q, _) => q != player,
                Square::Empty => false,
            };
            if enemy {
                proof {
                    // The neighbour square is occupied, so get_words sees a tile there.
                    assert(cell(g, nc) == Some(sq));
                    assert(occupied_by(g, nc, owner_at(g, nc)));
                }
                let mut words = self.get_words(nc);
                let ghost words0 = nested_view(words@);
                let mut k: usize = 0;
                while k < words.len()
                    invariant
                        k <= words@.len(),
                        words0 == nested_view(words@),
                        g == self.grid(),
                        nested_view(defenders@) == defs0 + words0.take(k as int),
                        words_all_occupied(g, defs0),
                        words_all_occupied(g, words0),
                        words_all_occupied(g, nested_view(defenders@)),
                    decreases words@.len() - k,
                {
                    let w = words[k].clone();
                    let ghost wv = w@;
                    let ghost d_prev = defenders@;
                    proof {
                        assert(wv == words0[k as int]);
                    }
                    defenders.push(w);
                    proof {
                        assert(defenders@.len() == d_prev.len() + 1);
                        assert(defenders@[d_prev.len() as int]@ == wv);
                        assert(forall|a: int| 0 <= a < d_prev.len() ==> defenders@[a] == d_prev[a]);
                        assert(nested_view(d_prev) == defs0 + words0.take(k as int));
                        assert(words0.take(k as int).len() == k);
                        assert(d_prev.len() == nested_view(d_prev).len());
                        assert(d_prev.len() == defs0.len() + k);
                        assert(nested_view(defenders@).len() == defs0.len() + k + 1);
                        assert(words0.take(k + 1).len() == k + 1);
                        assert forall|a: int|
                            0 <= a < nested_view(defenders@).len() implies nested_view(
                            defenders@,
                        )[a] == (defs0 + words0.take(k + 1))[a] by {
                            if a < d_prev.len() {
                                assert(defenders@[a] == d_prev[a]);
                                assert(nested_view(defenders@)[a] == nested_view(d_prev)[a]);
                                if a < defs0.len() {
                                    assert((defs0 + words0.take(k as int))[a] == defs0[a]);
                                    assert((defs0 + words0.take(k + 1))[a] == defs0[a]);
                                } else {
                                    assert((defs0 + words0.take(k as int))[a] == words0.take(
                                        k as int,
                                    )[a - defs0.len()]);
                                    assert((defs0 + words0.take(k + 1))[a] == words0.take(
                                        k + 1,
                                    )[a - defs0.len()]);
                                    assert(words0.take(k as int)[a - defs0.len()] == words0[a
                                        - defs0.len()]);
                                    assert(words0.take(k + 1)[a - defs0.len()] == words0[a
                                        - defs0.len()]);
                                }
                            } else {
                                assert(nested_view(defenders@)[a] == wv);
                                assert((defs0 + words0.take(k + 1))[a] == words0.take(k + 1)[a
                                    - defs0.len()]);
                                assert(words0.take(k + 1)[k as int] == words0[k as int]);
                            }
                        }
                        assert(nested_view(defenders@) =~= defs0 + words0.take(k + 1));
                        assert forall|a: int, b: int|
                            0 <= a < nested_view(defenders@).len() && 0 <= b < nested_view(
                                defenders@,
                            )[a].len() implies is_occupied(
                            g,
                            #[trigger] nested_view(defenders@)[a][b],
                        ) by {
                            if a < defs0.len() {
                                assert(nested_view(defenders@)[a] == defs0[a]);
                            } else {
                                assert(nested_view(defenders@)[a] == words0[a - defs0.len()]);
                                assert(is_occupied(g, words0[a - defs0.len()][b]));
                            }
                        }
                    }
                    k += 1;
                }
                proof {
                    assert(words0.take(words@.len() as int) =~= words0);
                    assert(nested_view(defenders@) =~= defenders_from_entries(
                        g,
                        orients,
                        player,
                        neighbours@.take(i + 1),
                    ));
                }
            } else {
                proof {
                    assert(nested_view(defenders@) =~= defenders_from_entries(
                        g,
                        orients,
                        player,
                        neighbours@.take(i + 1),
                    ));
                }
            }
            i += 1;
        }
        proof {
            assert(neighbours@.take(neighbours@.len() as int) =~= neighbours@);
        }
        (attackers, defenders)
    }
}


/// The squares cleared so far while walking word list `words`, up to word
/// `i`, letter `j`.
pub open spec fn cleared_upto(words: Seq<Seq<Coordinate>>, i: int, j: int, t: Coordinate) -> bool {
    exists|a: int, b: int|
        #![auto]
        0 <= a < words.len() && 0 <= b < words[a].len() && (a < i || (a == i && b < j)) && words[
            a
        ][b] == t
}

/// The squares cleared so far while walking the defender words selected by
/// `wi`, up to selection `i`, letter `j`.
pub open spec fn cleared_sel_upto(
    defs: Seq<Seq<Coordinate>>,
    wi: Seq<usize>,
    i: int,
    j: int,
    t: Coordinate,
) -> bool {
    exists|a: int, b: int|
        #![auto]
        0 <= a < wi.len() && 0 <= b < defs[wi[a] as int].len() && (a < i || (a == i && b < j))
            && defs[wi[a] as int][b] == t
}

/// The defender words picked out by the weak-index list.
pub open spec fn sel_words(defs: Seq<Seq<Coordinate>>, wi: Seq<usize>) -> Seq<Seq<Coordinate>> {
    Seq::new(wi.len(), |k: int| defs[wi[k] as int])
}

/// The two clearing bookkeepings agree on what has been cleared.
proof fn lemma_sel_cleared_eq(
    defs: Seq<Seq<Coordinate>>,
    wi: Seq<usize>,
    i: int,
    j: int,
    t: Coordinate,
)
    ensures
        cleared_upto(sel_words(defs, wi), i, j, t) == cleared_sel_upto(defs, wi, i, j, t),
{
    let sw = sel_words(defs, wi);
    if cleared_upto(sw, i, j, t) {
        let (a, b) = choose|a: int, b: int|
            #![auto]
            0 <= a < sw.len() && 0 <= b < sw[a].len() && (a < i || (a == i && b < j)) && sw[a][b]
                == t;
        assert(sw[a] == defs[wi[a] as int]);
        assert(0 <= a < wi.len() && 0 <= b < defs[wi[a] as int].len() && (a < i || (a == i && b
            < j)) && defs[wi[a] as int][b] == t);
        assert(cleared_sel_upto(defs, wi, i, j, t));
    }
    if cleared_sel_upto(defs, wi, i, j, t) {
        let (a, b) = choose|a: int, b: int|
            #![auto]
            0 <= a < wi.len() && 0 <= b < defs[wi[a] as int].len() && (a < i || (a == i && b < j))
                && defs[wi[a] as int][b] == t;
        assert(sw[a] == defs[wi[a] as int]);
        assert(0 <= a < sw.len() && 0 <= b < sw[a].len() && (a < i || (a == i && b < j)) && sw[
            a
        ][b] == t);
        assert(cleared_upto(sw, i, j, t));
    }
}

/// The letters returned while clearing the first `upto` squares of word `i`:
/// each square's letter, counted only the first time the square comes up.
pub open spec fn returned_letters_word(
    g: GridView,
    words: Seq<Seq<Coordinate>>,
    i: int,
    upto: int,
) -> Seq<char>
    decreases upto,
{
    if upto <= 0 {
        Seq::empty()
    } else {
        let c = words[i][upto - 1];
        returned_letters_word(g, words, i, upto - 1) + (if is_occupied(g, c) && !cleared_upto(
            words,
            i,
            upto - 1,
            c,
        ) {
            seq![crate::board::letter_at(g, c)]
        } else {
            Seq::empty()
        })
    }
}

/// The letters returned while clearing the first `upto_i` words, in order.
pub open spec fn returned_letters(g: GridView, words: Seq<Seq<Coordinate>>, upto_i: int) -> Seq<
    char,
>
    decreases upto_i,
{
    if upto_i <= 0 {
        Seq::empty()
    } else {
        returned_letters(g, words, upto_i - 1) + returned_letters_word(
            g,
            words,
            upto_i - 1,
            words[upto_i - 1].len() as int,
        )
    }
}

/// The letters the battle's removals return to the bag, in clearing order.
pub open spec fn battle_returned(
    g: GridView,
    orients: Seq<crate::board::Direction>,
    dict: Seq<Seq<char>>,
    player: usize,
    c: Coordinate,
) -> Seq<char> {
    let atts = words_through(g, orients, c);
    let defs = defenders_view(g, orients, player, c);
    let aw = strings_of(g, atts);
    let dw = strings_of(g, defs);
    if atts.len() == 0 || defs.len() == 0 {
        Seq::empty()
    } else if !all_attackers_valid(dict, aw) || weak_indices(dict, max_word_len(aw), dw).len()
        == 0 {
        returned_letters(g, atts, atts.len() as int)
    } else {
        let wi = weak_indices(dict, max_word_len(aw), dw);
        returned_letters(g, sel_words(defs, wi), wi.len() as int)
    }
}

impl Board {
    /// Clears one square, returning its letter to the bag first.
    fn clear_and_return(&mut self, target: Coordinate, hands: &mut Hands)
        requires
            in_bounds(old(self).grid(), target),
            cell(old(self).grid(), target) is Some,
        ensures
            final(self).grid() == crate::board::clear_view(old(self).grid(), target),
            final(self).roots@ == old(self).roots@,
            final(self).orientations@ == old(self).orientations@,
            final(self).height() == old(self).height(),
            forall|y: int|
                0 <= y < old(self).grid().len() ==> (#[trigger] final(self).grid()[y]).len() == old(
                    self,
                ).grid()[y].len(),
            final(hands).hands == old(hands).hands,
            old(hands).bag@.is_prefix_of(final(hands).bag@),
            final(hands).bag@ == old(hands).bag@ + (match cell(old(self).grid(), target) {
                Some(Square::Occupied(_, l)) => seq![l],
                _ => Seq::<char>::empty(),
            }),
    {
        match self.get(target) {
            Ok(Square::Occupied(_, letter)) => {
                hands.return_tile(letter);
                proof {
                    assert(old(hands).bag@ =~= hands.bag@.subrange(
                        0,
                        old(hands).bag@.len() as int,
                    ));
                }
            },
            _ => {
                proof {
                    assert(old(hands).bag@ =~= hands.bag@.subrange(
                        0,
                        old(hands).bag@.len() as int,
                    ));
                    assert(hands.bag@ =~= old(hands).bag@);
                }
            },
        }
        let cr = self.clear(target);
        proof {
            assert(cr is Ok);
        }
    }

    /// Collects combatants, judges the battle, applies the outcome's
    /// removals, then truncates whatever the removals disconnected.
    fn resolve_attack(
        &mut self,
        player: usize,
        position: Coordinate,
        judge: &Judge,
        hands: &mut Hands,
    )
        requires
            old(self).wf(),
            owners_ok(old(self).grid(), old(self).orientations@.len()),
        ensures
            final(self).grid() == truncate_view(
                resolve_view(
                    old(self).grid(),
                    old(self).orientations@,
                    judge.dict(),
                    player,
                    position,
                ),
                old(self).roots@,
            ),
            final(self).roots@ == old(self).roots@,
            final(self).orientations@ == old(self).orientations@,
            final(self).wf(),
            final(self).connected(),
            final(hands).hands == old(hands).hands,
            old(hands).bag@.is_prefix_of(final(hands).bag@),
            final(hands).bag@ == old(hands).bag@ + battle_returned(
                old(self).grid(),
                old(self).orientations@,
                judge.dict(),
                player,
                position,
            ) + crate::truncation::cut_letters(
                resolve_view(
                    old(self).grid(),
                    old(self).orientations@,
                    judge.dict(),
                    player,
                    position,
                ),
                old(self).roots@,
                resolve_view(
                    old(self).grid(),
                    old(self).orientations@,
                    judge.dict(),
                    player,
                    position,
                ).len() as int,
            ),
    {
        let ghost g1 = self.grid();
        let ghost orients = self.orientations@;
        let ghost roots_s = self.roots@;
        let ghost dict = judge.dict();
        let ghost rv = resolve_view(g1, orients, dict, player, position);
        proof {
            crate::board::lemma_grid_bounded(*old(self));
        }
        let (attackers, defenders) = self.collect_combanants(player, position);
        let ghost atts = nested_view(attackers@);
        let ghost defs = nested_view(defenders@);
        let attacking_words = match self.word_strings(&attackers) {
            Ok(w) => w,
            Err(_) => {
                proof {
                    assert(false);
                }
                return ;
            },
        };
        let defending_words = match self.word_strings(&defenders) {
            Ok(w) => w,
            Err(_) => {
                proof {
                    assert(false);
                }
                return ;
            },
        };
        let ghost aw = strings_of(g1, atts);
        let ghost dw = strings_of(g1, defs);
        proof {
            assert(attacking_words.deep_view() =~= aw);
            assert(defending_words.deep_view() =~= dw);
            assert(aw.len() == atts.len());
            assert(dw.len() == defs.len());
        }
        let outcome = judge.battle(attacking_words, defending_words);
        proof {
            assert(battle_post(dict, aw, dw, outcome));
        }
        match outcome {
            Outcome::NoBattle => {
                proof {
                    assert(atts.len() == 0 || defs.len() == 0);
                    assert forall|yy: int|
                        0 <= yy < g1.len() implies #[trigger] rv[yy] =~= g1[yy] by {
                        assert forall|xx: int|
                            0 <= xx < g1[yy].len() implies #[trigger] rv[yy][xx]
                            == g1[yy][xx] by {
                            assert(!resolve_cleared(
                                g1,
                                orients,
                                dict,
                                player,
                                position,
                                Coordinate { x: xx as usize, y: yy as usize },
                            ));
                        }
                    }
                    assert(self.grid() =~~= rv);
                    assert(battle_returned(g1, orients, dict, player, position)
                        =~= Seq::<char>::empty());
                    assert(hands.bag@ =~= old(hands).bag@ + battle_returned(
                        g1,
                        orients,
                        dict,
                        player,
                        position,
                    ));
                }
            },
            Outcome::DefenderWins => {
                proof {
                    assert(atts.len() > 0 && defs.len() > 0);
                    assert(!all_attackers_valid(dict, aw) || weak_indices(
                        dict,
                        max_word_len(aw),
                        dw,
                    ).len() == 0);
                }
                let mut i: usize = 0;
                while i < attackers.len()
                    invariant
                        i <= attackers@.len(),
                        atts == nested_view(attackers@),
                        self.roots@ == roots_s,
                        self.orientations@ == orients,
                        self.grid().len() == g1.len(),
                        g1.len() <= usize::MAX,
                        forall|yy: int|
                            0 <= yy < g1.len() ==> (#[trigger] g1[yy]).len() <= usize::MAX,
                        forall|yy: int|
                            0 <= yy < g1.len() ==> (#[trigger] self.grid()[yy]).len()
                                == g1[yy].len(),
                        forall|yy: int, xx: int|
                            0 <= yy < g1.len() && 0 <= xx < g1[yy].len() ==> #[trigger] self.grid(
                            )[yy][xx] == (if cleared_upto(
                                atts,
                                i as int,
                                0,
                                Coordinate { x: xx as usize, y: yy as usize },
                            ) {
                                Some(Square::Empty)
                            } else {
                                g1[yy][xx]
                            }),
                        hands.hands == old(hands).hands,
                        old(hands).bag@.is_prefix_of(hands.bag@),
                        hands.bag@ == old(hands).bag@ + returned_letters(g1, atts, i as int),
                        words_all_occupied(g1, atts),
                    decreases attackers@.len() - i,
                {
                    let wlen = attackers[i].len();
                    let mut j: usize = 0;
                    while j < wlen
                        invariant
                            i < attackers@.len(),
                            j <= wlen,
                            wlen == attackers@[i as int]@.len(),
                            atts == nested_view(attackers@),
                            self.roots@ == roots_s,
                            self.orientations@ == orients,
                            self.grid().len() == g1.len(),
                            g1.len() <= usize::MAX,
                            forall|yy: int|
                                0 <= yy < g1.len() ==> (#[trigger] g1[yy]).len() <= usize::MAX,
                            forall|yy: int|
                                0 <= yy < g1.len() ==> (#[trigger] self.grid()[yy]).len()
                                    == g1[yy].len(),
                            forall|yy: int, xx: int|
                                0 <= yy < g1.len() && 0 <= xx < g1[yy].len()
                                    ==> #[trigger] self.grid()[yy][xx] == (if cleared_upto(
                                    atts,
                                    i as int,
                                    j as int,
                                    Coordinate { x: xx as usize, y: yy as usize },
                                ) {
                                    Some(Square::Empty)
                                } else {
                                    g1[yy][xx]
                                }),
                            hands.hands == old(hands).hands,
                            old(hands).bag@.is_prefix_of(hands.bag@),
                            hands.bag@ == old(hands).bag@ + returned_letters(g1, atts, i as int)
                                + returned_letters_word(g1, atts, i as int, j as int),
                            words_all_occupied(g1, atts),
                        decreases wlen - j,
                    {
                        let target = attackers[i][j];
                        let ghost gprev = self.grid();
                        proof {
                            assert(target == atts[i as int][j as int]);
                            assert(is_occupied(g1, atts[i as int][j as int]));
                            assert(in_bounds(g1, target));
                            assert(cell(g1, target) is Some);
                            assert(gprev[target.y as int][target.x as int] == (
                            if cleared_upto(atts, i as int, j as int, target) {
                                Some(Square::Empty)
                            } else {
                                g1[target.y as int][target.x as int]
                            }));
                            assert(cell(gprev, target) is Some);
                        }
                        let ghost bag_pre = hands.bag@;
                        self.clear_and_return(target, hands);
                        proof {
                            lemma_put_view_frame(gprev, target, Square::Empty);
                            assert(old(hands).bag@.is_prefix_of(hands.bag@));
                            if cleared_upto(atts, i as int, j as int, target) {
                                assert(cell(gprev, target) == Some(Square::Empty));
                                assert(hands.bag@ =~= bag_pre);
                            } else {
                                assert(cell(gprev, target) == cell(g1, target));
                                assert(cell(g1, target) == Some(Square::Occupied(
                                    crate::discover::owner_at(g1, target),
                                    crate::board::letter_at(g1, target),
                                )));
                            }
                            assert(returned_letters_word(g1, atts, i as int, j + 1)
                                =~= returned_letters_word(g1, atts, i as int, j as int) + (
                            if is_occupied(g1, target) && !cleared_upto(
                                atts,
                                i as int,
                                j as int,
                                target,
                            ) {
                                seq![crate::board::letter_at(g1, target)]
                            } else {
                                Seq::<char>::empty()
                            }));
                            assert(hands.bag@ =~= old(hands).bag@ + returned_letters(
                                g1,
                                atts,
                                i as int,
                            ) + returned_letters_word(g1, atts, i as int, j + 1));
                            assert forall|yy: int, xx: int|
                                0 <= yy < g1.len() && 0 <= xx < g1[yy].len()
                                    implies #[trigger] self.grid()[yy][xx] == (if cleared_upto(
                                    atts,
                                    i as int,
                                    j + 1,
                                    Coordinate { x: xx as usize, y: yy as usize },
                                ) {
                                    Some(Square::Empty)
                                } else {
                                    g1[yy][xx]
                                }) by {
                                let cc = Coordinate { x: xx as usize, y: yy as usize };
                                if yy == target.y as int && xx == target.x as int {
                                    assert(cc == target);
                                    assert(self.grid()[yy][xx] == Some(Square::Empty));
                                    assert(cleared_upto(atts, i as int, j + 1, cc));
                                } else {
                                    assert(self.grid()[yy][xx] == gprev[yy][xx]);
                                    if cleared_upto(atts, i as int, j + 1, cc) {
                                        let (a, b) = choose|a: int, b: int|
                                            #![auto]
                                            0 <= a < atts.len() && 0 <= b < atts[a].len() && (a
                                                < i || (a == i && b < j + 1)) && atts[a][b] == cc;
                                        if a == i && b == j {
                                            assert(cc == target);
                                            assert(false);
                                        }
                                        assert(cleared_upto(atts, i as int, j as int, cc));
                                    }
                                    if cleared_upto(atts, i as int, j as int, cc) {
                                        assert(cleared_upto(atts, i as int, j + 1, cc));
                                    }
                                }
                            }
                        }
                        j += 1;
                    }
                    proof {
                        assert(returned_letters(g1, atts, i + 1) =~= returned_letters(
                            g1,
                            atts,
                            i as int,
                        ) + returned_letters_word(g1, atts, i as int, wlen as int));
                        assert(hands.bag@ =~= old(hands).bag@ + returned_letters(
                            g1,
                            atts,
                            i + 1,
                        ) + returned_letters_word(g1, atts, i + 1, 0));
                        assert forall|yy: int, xx: int|
                            0 <= yy < g1.len() && 0 <= xx < g1[yy].len() implies #[trigger] self.grid(
                            )[yy][xx] == (if cleared_upto(
                                atts,
                                i + 1,
                                0,
                                Coordinate { x: xx as usize, y: yy as usize },
                            ) {
                                Some(Square::Empty)
                            } else {
                                g1[yy][xx]
                            }) by {
                            let cc = Coordinate { x: xx as usize, y: yy as usize };
                            if cleared_upto(atts, i + 1, 0, cc) {
                                assert(cleared_upto(atts, i as int, wlen as int, cc));
                            }
                            if cleared_upto(atts, i as int, wlen as int, cc) {
                                assert(cleared_upto(atts, i + 1, 0, cc));
                            }
                        }
                    }
                    i += 1;
                }
                proof {
                    assert forall|yy: int|
                        0 <= yy < g1.len() implies #[trigger] self.grid()[yy] =~= rv[yy] by {
                        assert forall|xx: int|
                            0 <= xx < g1[yy].len() implies #[trigger] self.grid()[yy][xx]
                            == rv[yy][xx] by {
                            let cc = Coordinate { x: xx as usize, y: yy as usize };
                            assert(resolve_cleared(g1, orients, dict, player, position, cc)
                                == cleared_upto(atts, attackers@.len() as int, 0, cc));
                        }
                    }
                    assert(self.grid() =~~= rv);
                    assert(battle_returned(g1, orients, dict, player, position)
                        =~= returned_letters(g1, atts, atts.len() as int));
                    assert(hands.bag@ =~= old(hands).bag@ + battle_returned(
                        g1,
                        orients,
                        dict,
                        player,
                        position,
                    ));
                }
            },
            Outcome::AttackerWins(losers) => {
                proof {
                    assert(atts.len() > 0 && defs.len() > 0);
                    assert(all_attackers_valid(dict, aw));
                    assert(losers@ == weak_indices(dict, max_word_len(aw), dw));
                    assert(defenders.len() == defenders@.len());
                    assert(dw.len() <= usize::MAX);
                    crate::judge::lemma_weak_indices_range(dict, max_word_len(aw), dw);
                }
                let ghost wi = losers@;
                let ghost sw = sel_words(defs, wi);
                let mut i: usize = 0;
                while i < losers.len()
                    invariant
                        i <= losers@.len(),
                        wi == losers@,
                        forall|a: int| 0 <= a < wi.len() ==> #[trigger] wi[a] < defs.len(),
                        defs == nested_view(defenders@),
                        self.roots@ == roots_s,
                        self.orientations@ == orients,
                        self.grid().len() == g1.len(),
                        g1.len() <= usize::MAX,
                        forall|yy: int|
                            0 <= yy < g1.len() ==> (#[trigger] g1[yy]).len() <= usize::MAX,
                        forall|yy: int|
                            0 <= yy < g1.len() ==> (#[trigger] self.grid()[yy]).len()
                                == g1[yy].len(),
                        forall|yy: int, xx: int|
                            0 <= yy < g1.len() && 0 <= xx < g1[yy].len() ==> #[trigger] self.grid(
                            )[yy][xx] == (if cleared_sel_upto(
                                defs,
                                wi,
                                i as int,
                                0,
                                Coordinate { x: xx as usize, y: yy as usize },
                            ) {
                                Some(Square::Empty)
                            } else {
                                g1[yy][xx]
                            }),
                        hands.hands == old(hands).hands,
                        old(hands).bag@.is_prefix_of(hands.bag@),
                        sw == sel_words(defs, wi),
                        hands.bag@ == old(hands).bag@ + returned_letters(g1, sw, i as int),
                        words_all_occupied(g1, defs),
                    decreases losers@.len() - i,
                {
                    let idx = losers[i];
                    proof {
                        assert(wi[i as int] < defs.len());
                    }
                    let wlen = defenders[idx].len();
                    let mut j: usize = 0;
                    while j < wlen
                        invariant
                            i < losers@.len(),
                            wi == losers@,
                            idx == wi[i as int],
                            idx < defenders@.len(),
                            j <= wlen,
                            wlen == defenders@[idx as int]@.len(),
                            forall|a: int| 0 <= a < wi.len() ==> #[trigger] wi[a] < defs.len(),
                            defs == nested_view(defenders@),
                            self.roots@ == roots_s,
                            self.orientations@ == orients,
                            self.grid().len() == g1.len(),
                            g1.len() <= usize::MAX,
                            forall|yy: int|
                                0 <= yy < g1.len() ==> (#[trigger] g1[yy]).len() <= usize::MAX,
                            forall|yy: int|
                                0 <= yy < g1.len() ==> (#[trigger] self.grid()[yy]).len()
                                    == g1[yy].len(),
                            forall|yy: int, xx: int|
                                0 <= yy < g1.len() && 0 <= xx < g1[yy].len()
                                    ==> #[trigger] self.grid()[yy][xx] == (if cleared_sel_upto(
                                    defs,
                                    wi,
                                    i as int,
                                    j as int,
                                    Coordinate { x: xx as usize, y: yy as usize },
                                ) {
                                    Some(Square::Empty)
                                } else {
                                    g1[yy][xx]
                                }),
                            hands.hands == old(hands).hands,
                            old(hands).bag@.is_prefix_of(hands.bag@),
                            sw == sel_words(defs, wi),
                            hands.bag@ == old(hands).bag@ + returned_letters(g1, sw, i as int)
                                + returned_letters_word(g1, sw, i as int, j as int),
                            words_all_occupied(g1, defs),
                        decreases wlen - j,
                    {
                        let target = defenders[idx][j];
                        let ghost gprev = self.grid();
                        proof {
                            assert(target == defs[idx as int][j as int]);
                            assert(is_occupied(g1, defs[idx as int][j as int]));
                            assert(in_bounds(g1, target));
                            assert(gprev[target.y as int][target.x as int] == (
                            if cleared_sel_upto(defs, wi, i as int, j as int, target) {
                                Some(Square::Empty)
                            } else {
                                g1[target.y as int][target.x as int]
                            }));
                            assert(cell(gprev, target) is Some);
                        }
                        let ghost bag_pre = hands.bag@;
                        self.clear_and_return(target, hands);
                        proof {
                            lemma_put_view_frame(gprev, target, Square::Empty);
                            assert(old(hands).bag@.is_prefix_of(hands.bag@));
                            assert(sw[i as int] == defs[idx as int]);
                            assert(target == sw[i as int][j as int]);
                            lemma_sel_cleared_eq(defs, wi, i as int, j as int, target);
                            if cleared_sel_upto(defs, wi, i as int, j as int, target) {
                                assert(cell(gprev, target) == Some(Square::Empty));
                                assert(hands.bag@ =~= bag_pre);
                            } else {
                                assert(cell(gprev, target) == cell(g1, target));
                                assert(cell(g1, target) == Some(Square::Occupied(
                                    crate::discover::owner_at(g1, target),
                                    crate::board::letter_at(g1, target),
                                )));
                            }
                            assert(returned_letters_word(g1, sw, i as int, j + 1)
                                =~= returned_letters_word(g1, sw, i as int, j as int) + (
                            if is_occupied(g1, target) && !cleared_upto(
                                sw,
                                i as int,
                                j as int,
                                target,
                            ) {
                                seq![crate::board::letter_at(g1, target)]
                            } else {
                                Seq::<char>::empty()
                            }));
                            assert(hands.bag@ =~= old(hands).bag@ + returned_letters(
                                g1,
                                sw,
                                i as int,
                            ) + returned_letters_word(g1, sw, i as int, j + 1));
                            assert forall|yy: int, xx: int|
                                0 <= yy < g1.len() && 0 <= xx < g1[yy].len()
                                    implies #[trigger] self.grid()[yy][xx] == (
                                if cleared_sel_upto(
                                    defs,
                                    wi,
                                    i as int,
                                    j + 1,
                                    Coordinate { x: xx as usize, y: yy as usize },
                                ) {
                                    Some(Square::Empty)
                                } else {
                                    g1[yy][xx]
                                }) by {
                                let cc = Coordinate { x: xx as usize, y: yy as usize };
                                if yy == target.y as int && xx == target.x as int {
                                    assert(cc == target);
                                    assert(self.grid()[yy][xx] == Some(Square::Empty));
                                    assert(cleared_sel_upto(defs, wi, i as int, j + 1, cc));
                                } else {
                                    assert(self.grid()[yy][xx] == gprev[yy][xx]);
                                    if cleared_sel_upto(defs, wi, i as int, j + 1, cc) {
                                        let (a, b) = choose|a: int, b: int|
                                            #![auto]
                                            0 <= a < wi.len() && 0 <= b < defs[wi[a] as int].len()
                                                && (a < i || (a == i && b < j + 1)) && defs[
                                                wi[a] as int
                                            ][b] == cc;
                                        if a == i && b == j {
                                            assert(cc == target);
                                            assert(false);
                                        }
                                        assert(cleared_sel_upto(defs, wi, i as int, j as int, cc));
                                    }
                                    if cleared_sel_upto(defs, wi, i as int, j as int, cc) {
                                        assert(cleared_sel_upto(defs, wi, i as int, j + 1, cc));
                                    }
                                }
                            }
                        }
                        j += 1;
                    }
                    proof {
                        assert(sw[i as int].len() == wlen);
                        assert(returned_letters(g1, sw, i + 1) =~= returned_letters(
                            g1,
                            sw,
                            i as int,
                        ) + returned_letters_word(g1, sw, i as int, wlen as int));
                        assert(hands.bag@ =~= old(hands).bag@ + returned_letters(
                            g1,
                            sw,
                            i + 1,
                        ) + returned_letters_word(g1, sw, i + 1, 0));
                        assert forall|yy: int, xx: int|
                            0 <= yy < g1.len() && 0 <= xx < g1[yy].len() implies #[trigger] self.grid(
                            )[yy][xx] == (if cleared_sel_upto(
                                defs,
                                wi,
                                i + 1,
                                0,
                                Coordinate { x: xx as usize, y: yy as usize },
                            ) {
                                Some(Square::Empty)
                            } else {
                                g1[yy][xx]
                            }) by {
                            let cc = Coordinate { x: xx as usize, y: yy as usize };
                            if cleared_sel_upto(defs, wi, i + 1, 0, cc) {
                                assert(cleared_sel_upto(defs, wi, i as int, wlen as int, cc));
                            }
                            if cleared_sel_upto(defs, wi, i as int, wlen as int, cc) {
                                assert(cleared_sel_upto(defs, wi, i + 1, 0, cc));
                            }
                        }
                    }
                    i += 1;
                }
                proof {
                    assert forall|yy: int|
                        0 <= yy < g1.len() implies #[trigger] self.grid()[yy] =~= rv[yy] by {
                        assert forall|xx: int|
                            0 <= xx < g1[yy].len() implies #[trigger] self.grid()[yy][xx]
                            == rv[yy][xx] by {
                            let cc = Coordinate { x: xx as usize, y: yy as usize };
                            assert(resolve_cleared(g1, orients, dict, player, position, cc)
                                == cleared_sel_upto(defs, wi, losers@.len() as int, 0, cc));
                        }
                    }
                    assert(self.grid() =~~= rv);
                    assert(battle_returned(g1, orients, dict, player, position)
                        =~= returned_letters(g1, sw, wi.len() as int));
                    assert(hands.bag@ =~= old(hands).bag@ + battle_returned(
                        g1,
                        orients,
                        dict,
                        player,
                        position,
                    ));
                }
            },
        }
        proof {
            assert(self.grid() == rv);
            assert(crate::board::grid_rect(self.grid()));
            assert forall|pq: int| 0 <= pq < roots_s.len() implies in_bounds(
                self.grid(),
                #[trigger] roots_s[pq],
            ) by {
                assert(in_bounds(g1, roots_s[pq]));
                assert(self.grid()[roots_s[pq].y as int].len() == g1[roots_s[pq].y as int].len());
            }
            assert(self.wf());
        }
        let ghost bag_mid = hands.bag@;
        self.truncate(hands);
        proof {
            assert(old(hands).bag@.is_prefix_of(bag_mid));
            assert(bag_mid.is_prefix_of(hands.bag@));
            assert forall|u: int|
                0 <= u < old(hands).bag@.len() implies old(hands).bag@[u] == hands.bag@[u] by {
                assert(old(hands).bag@[u] == bag_mid[u]);
            }
            assert(old(hands).bag@ =~= hands.bag@.subrange(0, old(hands).bag@.len() as int));
            assert(hands.bag@ == bag_mid + crate::truncation::cut_letters(
                rv,
                roots_s,
                rv.len() as int,
            ));
            assert(hands.bag@ =~= old(hands).bag@ + battle_returned(
                g1,
                orients,
                dict,
                player,
                position,
            ) + crate::truncation::cut_letters(rv, roots_s, rv.len() as int));
        }
    }
}


impl Board {
    /// Validates and executes one move. A placement writes the tile, fights
    /// the battle it triggers and truncates what the removals disconnected;
    /// a swap only exchanges two of the player's letters. On any validation
    /// error the board and hands are left exactly as they were.
    pub fn make_move(&mut self, game_move: Move, hands: &mut Hands, judge: &Judge) -> (r: Result<
        (),
        GamePlayError,
    >)
        requires
            old(self).wf(),
            old(self).connected(),
        ensures
            game_move matches Move::Place { player, tile, position } ==> {
                &&& (place_error(*old(self), *old(hands), player, tile, position) matches Some(e)
                    ==> r == Err::<(), GamePlayError>(e) && final(self).same_board(*old(self))
                    && *final(hands) == *old(hands))
                &&& (place_error(*old(self), *old(hands), player, tile, position) is None ==> {
                    &&& r == Ok::<(), GamePlayError>(())
                    &&& final(self).grid() == truncate_view(
                        resolve_view(
                            set_view(old(self).grid(), position, player, tile),
                            old(self).orientations@,
                            judge.dict(),
                            player,
                            position,
                        ),
                        old(self).roots@,
                    )
                    &&& final(self).roots@ == old(self).roots@
                    &&& final(self).orientations@ == old(self).orientations@
                    &&& final(self).wf()
                    &&& final(self).connected()
                    &&& final(hands).hands@.len() == old(hands).hands@.len()
                    &&& (forall|q: int|
                        0 <= q < old(hands).hands@.len() && q != player ==> final(hands).racks()[q]
                            == old(hands).racks()[q])
                    &&& rack_after_use(*old(hands), *final(hands), player, tile)
                    &&& final(hands).bag@ == (if old(hands).bag@.len() > 0 {
                        old(hands).bag@.drop_last()
                    } else {
                        old(hands).bag@
                    }) + place_returned(*old(self), judge.dict(), player, tile, position)
                })
            },
            game_move matches Move::Swap { player, positions } ==> {
                &&& (r is Ok <==> old(self).swap_ok(player, positions@[0], positions@[1]))
                &&& (old(self).swap_ok(player, positions@[0], positions@[1]) ==> {
                    &&& final(self).grid() == old(self).swap_view(
                        player,
                        positions@[0],
                        positions@[1],
                    )
                    &&& final(self).wf()
                    &&& final(self).connected()
                })
                &&& (!old(self).swap_ok(player, positions@[0], positions@[1])
                    ==> final(self).same_board(*old(self)) && r == Err::<(), GamePlayError>(
                    old(self).swap_error(player, positions@[0], positions@[1]).unwrap(),
                ))
                &&& final(self).roots@ == old(self).roots@
                &&& final(self).orientations@ == old(self).orientations@
                &&& *final(hands) == *old(hands)
            },
    {
        match game_move {
            Move::Place { player, tile, position } => {
                let ghost g0 = self.grid();
                match self.get(position) {
                    Ok(Square::Occupied(_, _)) => {
                        return Err(GamePlayError::OccupiedPlace);
                    },
                    Ok(Square::Empty) => {},
                    Err(e) => {
                        return Err(e);
                    },
                }
                let root = match self.get_root(player) {
                    Ok(rt) => rt,
                    Err(e) => {
                        return Err(e);
                    },
                };
                if position != root {
                    let neighbours = self.neighbouring_squares(position);
                    let mut found = false;
                    let mut k: usize = 0;
                    while k < neighbours.len()
                        invariant
                            k <= neighbours@.len(),
                            neighbours@ == neighbours_view(g0, position),
                            g0 == self.grid(),
                            found == exists|u: int|
                                0 <= u < k && is_friend(#[trigger] neighbours@[u].1, player),
                        decreases neighbours@.len() - k,
                    {
                        match neighbours[k].1 {
                            Square::Occupied(q, _) => {
                                if q == player {
                                    found = true;
                                }
                            },
                            Square::Empty => {},
                        }
                        k += 1;
                    }
                    if !found {
                        proof {
                            assert(!has_friendly_neighbour(g0, position, player));
                        }
                        return Err(GamePlayError::NonAdjacentPlace);
                    }
                }
                match hands.use_tile(player, tile) {
                    Ok(()) => {},
                    Err(e) => {
                        return Err(e);
                    },
                }
                let ghost h_mid = *hands;
                let sr = self.set(position, player, tile);
                proof {
                    assert(sr is Ok);
                }
                let ghost g1 = self.grid();
                proof {
                    assert(g1 == set_view(g0, position, player, tile));
                    lemma_put_view_frame(g0, position, Square::Occupied(player, tile));
                    assert forall|yy: int|
                        0 <= yy < g1.len() implies (#[trigger] g1[yy]).len() == g0[yy].len() by {}
                    assert(crate::board::grid_rect(g1));
                    assert forall|pq: int| 0 <= pq < self.roots@.len() implies in_bounds(
                        g1,
                        #[trigger] self.roots@[pq],
                    ) by {
                        assert(in_bounds(g0, old(self).roots@[pq]));
                        assert(g1[self.roots@[pq].y as int].len() == g0[
                            self.roots@[pq].y as int
                        ].len());
                    }
                    assert(self.wf());
                    assert forall|cc: Coordinate, qq: usize| #[trigger] occupied_by(
                        g1,
                        cc,
                        qq,
                    ) implies qq < self.orientations@.len() by {
                        if cc.y == position.y && cc.x == position.x {
                            assert(cc == position);
                            assert(cell(g1, position) == Some(Square::Occupied(player, tile)));
                            assert(qq == player);
                            assert(player < old(self).roots@.len());
                        } else {
                            assert(cell(g1, cc) == cell(g0, cc));
                            assert(occupied_by(g0, cc, qq));
                            assert(reachable(g0, old(self).roots@, qq, cc));
                            assert(qq < old(self).roots@.len());
                        }
                    }
                    assert(owners_ok(g1, self.orientations@.len()));
                }
                self.resolve_attack(player, position, judge, hands);
                proof {
                    assert(hands.bag@ =~= h_mid.bag@ + place_returned(
                        *old(self),
                        judge.dict(),
                        player,
                        tile,
                        position,
                    ));
                    assert(hands.hands == h_mid.hands);
                    assert(hands.racks() =~= h_mid.racks());
                    let rack0 = old(hands).racks()[player as int];
                    let j = choose|j: int|
                        {
                            &&& 0 <= j < rack0.len()
                            &&& rack0[j] == tile
                            &&& (forall|u: int| 0 <= u < j ==> rack0[u] != tile)
                            &&& h_mid.racks()[player as int] == (if old(hands).bag@.len() > 0 {
                                rack0.remove(j).push(old(hands).bag@.last())
                            } else {
                                rack0.remove(j)
                            })
                        };
                    assert(hands.racks()[player as int] == h_mid.racks()[player as int]);
                    assert(rack_after_use(*old(hands), *hands, player, tile));
                    assert forall|q: int|
                        0 <= q < old(hands).hands@.len() && q != player implies hands.racks()[q]
                        == old(hands).racks()[q] by {
                        assert(h_mid.racks()[q] == old(hands).racks()[q]);
                    }
                }
                Ok(())
            },
            Move::Swap { player, positions } => {
                let ghost g0 = self.grid();
                let r = self.swap(player, positions);
                proof {
                    if old(self).swap_ok(player, positions@[0], positions@[1]) {
                        let a = positions@[0];
                        let b = positions@[1];
                        let g2 = self.grid();
                        assert forall|yy: int|
                            0 <= yy < g2.len() implies (#[trigger] g2[yy]).len()
                            == g0[yy].len() by {}
                        assert(crate::board::grid_rect(g2));
                        assert forall|pq: int| 0 <= pq < self.roots@.len() implies in_bounds(
                            g2,
                            #[trigger] self.roots@[pq],
                        ) by {
                            assert(in_bounds(g0, old(self).roots@[pq]));
                            assert(g2[self.roots@[pq].y as int].len() == g0[
                                self.roots@[pq].y as int
                            ].len());
                        }
                        assert(self.wf());
                        let la = crate::board::letter_at(g0, a);
                        let lb = crate::board::letter_at(g0, b);
                        let gm = put_view(g0, a, Square::Occupied(player, lb));
                        lemma_put_view_frame(g0, a, Square::Occupied(player, lb));
                        assert(in_bounds(gm, b));
                        lemma_put_view_frame(gm, b, Square::Occupied(player, la));
                        assert(g2 == put_view(gm, b, Square::Occupied(player, la)));
                        assert forall|cc: Coordinate, qq: usize|
                            #![trigger occupied_by(g0, cc, qq)]
                            #![trigger occupied_by(g2, cc, qq)]
                            occupied_by(g0, cc, qq) <==> occupied_by(g2, cc, qq) by {
                            if cc.y == b.y && cc.x == b.x {
                                assert(cc == b);
                                assert(cell(g2, b) == Some(Square::Occupied(player, la)));
                                assert(occupied_by(g0, b, player));
                            } else if cc.y == a.y && cc.x == a.x {
                                assert(cc == a);
                                assert(cell(g2, a) == cell(gm, a));
                                assert(cell(gm, a) == Some(Square::Occupied(player, lb)));
                                assert(occupied_by(g0, a, player));
                            } else {
                                if in_bounds(g0, cc) {
                                    assert(cell(g2, cc) == cell(gm, cc));
                                    assert(cell(gm, cc) == cell(g0, cc));
                                }
                            }
                        }
                        lemma_same_occupancy_connected(g0, g2, old(self).roots@);
                        assert(self.connected());
                    }
                }
                r
            },
        }
    }
}

} // verus!
