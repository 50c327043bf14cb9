use vstd::prelude::*;

use crate::board::{
    cell, in_bounds, is_occupied, occupied_by, Board, Coordinate, Direction, GridView, Square,
};
use crate::error::GamePlayError;

verus! {

/// Relies on String::push from the standard library: appends exactly the
/// given character at the end of the string.
pub assume_specification[ String::push ](s: &mut String, c: char)
    ensures
        final(s)@ == old(s)@.push(c),
;

/// The owner of the tile at `c`.
pub open spec fn owner_at(g: GridView, c: Coordinate) -> usize
    recommends
        is_occupied(g, c),
{
    match cell(g, c) {
        Some(Square::Occupied(p, _)) => p,
        _ => arbitrary(),
    }
}

/// The westernmost column of the same-owner run through column `x` of row `y`.
pub open spec fn run_lo_x(g: GridView, p: usize, x: usize, y: usize) -> usize
    decreases x,
{
    if x >= 1 && occupied_by(g, Coordinate { x: (x - 1) as usize, y }, p) {
        run_lo_x(g, p, (x - 1) as usize, y)
    } else {
        x
    }
}

/// The easternmost column of the same-owner run through column `x` of row `y`.
pub open spec fn run_hi_x(g: GridView, p: usize, x: usize, y: usize) -> usize
    decreases g[y as int].len() - x,
{
    if x < usize::MAX && occupied_by(g, Coordinate { x: (x + 1) as usize, y }, p) {
        run_hi_x(g, p, (x + 1) as usize, y)
    } else {
        x
    }
}

/// The northernmost row of the same-owner run through row `y` of column `x`.
pub open spec fn run_lo_y(g: GridView, p: usize, x: usize, y: usize) -> usize
    decreases y,
{
    if y >= 1 && occupied_by(g, Coordinate { x, y: (y - 1) as usize }, p) {
        run_lo_y(g, p, x, (y - 1) as usize)
    } else {
        y
    }
}

/// The southernmost row of the same-owner run through row `y` of column `x`.
pub open spec fn run_hi_y(g: GridView, p: usize, x: usize, y: usize) -> usize
    decreases g.len() - y,
{
    if y < usize::MAX && occupied_by(g, Coordinate { x, y: (y + 1) as usize }, p) {
        run_hi_y(g, p, x, (y + 1) as usize)
    } else {
        y
    }
}

pub proof fn lemma_run_lo_x_char(g: GridView, p: usize, x: usize, y: usize, lo: usize)
    requires
        lo <= x,
        forall|u: int|
            lo <= u <= x ==> #[trigger] occupied_by(g, Coordinate { x: u as usize, y }, p),
        lo == 0 || !occupied_by(g, Coordinate { x: (lo - 1) as usize, y }, p),
    ensures
        run_lo_x(g, p, x, y) == lo,
    decreases x,
{
    if x > lo {
        assert(occupied_by(g, Coordinate { x: (x - 1) as usize, y }, p));
        lemma_run_lo_x_char(g, p, (x - 1) as usize, y, lo);
    }
}

pub proof fn lemma_run_hi_x_char(g: GridView, p: usize, x: usize, y: usize, hi: usize)
    requires
        x <= hi,
        forall|u: int|
            x <= u <= hi ==> #[trigger] occupied_by(g, Coordinate { x: u as usize, y }, p),
        hi == usize::MAX || !occupied_by(g, Coordinate { x: (hi + 1) as usize, y }, p),
    ensures
        run_hi_x(g, p, x, y) == hi,
    decreases hi - x,
{
    if x < hi {
        assert(occupied_by(g, Coordinate { x: (x + 1) as usize, y }, p));
        lemma_run_hi_x_char(g, p, (x + 1) as usize, y, hi);
    }
}

pub proof fn lemma_run_lo_y_char(g: GridView, p: usize, x: usize, y: usize, lo: usize)
    requires
        lo <= y,
        forall|u: int|
            lo <= u <= y ==> #[trigger] occupied_by(g, Coordinate { x, y: u as usize }, p),
        lo == 0 || !occupied_by(g, Coordinate { x, y: (lo - 1) as usize }, p),
    ensures
        run_lo_y(g, p, x, y) == lo,
    decreases y,
{
    if y > lo {
        assert(occupied_by(g, Coordinate { x, y: (y - 1) as usize }, p));
        lemma_run_lo_y_char(g, p, x, (y - 1) as usize, lo);
    }
}

pub proof fn lemma_run_hi_y_char(g: GridView, p: usize, x: usize, y: usize, hi: usize)
    requires
        y <= hi,
        forall|u: int|
            y <= u <= hi ==> #[trigger] occupied_by(g, Coordinate { x, y: u as usize }, p),
        hi == usize::MAX || !occupied_by(g, Coordinate { x, y: (hi + 1) as usize }, p),
    ensures
        run_hi_y(g, p, x, y) == hi,
    decreases hi - y,
{
    if y < hi {
        assert(occupied_by(g, Coordinate { x, y: (y + 1) as usize }, p));
        lemma_run_hi_y_char(g, p, x, (y + 1) as usize, hi);
    }
}

/// A player reading north or west reads runs in decreasing coordinate order.
pub open spec fn reads_reversed(d: Direction) -> bool {
    d == Direction::North || d == Direction::West
}

/// The maximal horizontal same-owner run through `c`, in reading order.
pub open spec fn horiz_word(g: GridView, p: usize, c: Coordinate, d: Direction) -> Seq<
    Coordinate,
> {
    let lo = run_lo_x(g, p, c.x, c.y);
    let hi = run_hi_x(g, p, c.x, c.y);
    if reads_reversed(d) {
        Seq::new((hi - lo + 1) as nat, |i: int| Coordinate { x: (hi - i) as usize, y: c.y })
    } else {
        Seq::new((hi - lo + 1) as nat, |i: int| Coordinate { x: (lo + i) as usize, y: c.y })
    }
}

/// The maximal vertical same-owner run through `c`, in reading order.
pub open spec fn vert_word(g: GridView, p: usize, c: Coordinate, d: Direction) -> Seq<Coordinate> {
    let lo = run_lo_y(g, p, c.x, c.y);
    let hi = run_hi_y(g, p, c.x, c.y);
    if reads_reversed(d) {
        Seq::new((hi - lo + 1) as nat, |i: int| Coordinate { x: c.x, y: (hi - i) as usize })
    } else {
        Seq::new((hi - lo + 1) as nat, |i: int| Coordinate { x: c.x, y: (lo + i) as usize })
    }
}

/// Every maximal word through `c`: the vertical run then the horizontal run,
/// each kept when it has at least two letters; a tile alone on both axes
/// still counts once, as a single-letter word.
pub open spec fn words_through(g: GridView, orients: Seq<Direction>, c: Coordinate) -> Seq<
    Seq<Coordinate>,
> {
    if !is_occupied(g, c) {
        Seq::empty()
    } else {
        let p = owner_at(g, c);
        let d = orients[p as int];
        let v = vert_word(g, p, c, d);
        let h = horiz_word(g, p, c, d);
        if v.len() >= 2 && h.len() >= 2 {
            seq![v, h]
        } else if v.len() >= 2 {
            seq![v]
        } else if h.len() >= 2 {
            seq![h]
        } else {
            seq![v]
        }
    }
}

/// The mathematical value of a list of words held as vectors.
pub open spec fn nested_view(v: Seq<Vec<Coordinate>>) -> Seq<Seq<Coordinate>> {
    Seq::new(v.len(), |i: int| v[i]@)
}

/// Every coordinate of every word holds a tile.
pub open spec fn words_all_occupied(g: GridView, words: Seq<Seq<Coordinate>>) -> bool {
    forall|i: int, j: int|
        0 <= i < words.len() && 0 <= j < words[i].len() ==> is_occupied(g, #[trigger] words[i][j])
}

/// The letters of each word, in board reading order.
pub open spec fn strings_of(g: GridView, words: Seq<Seq<Coordinate>>) -> Seq<Seq<char>> {
    Seq::new(
        words.len(),
        |i: int|
            Seq::new(
                words[i].len(),
                |j: int| crate::board::letter_at(g, words[i][j]),
            ),
    )
}

impl Board {
    /// The square at (x, y) exists and is occupied by `p`.
    pub(crate) fn owned(&self, x: usize, y: usize, p: usize) -> (r: bool)
        ensures
            r == occupied_by(self.grid(), Coordinate { x, y }, p),
    {
        if y < self.squares.len() {
            let row: &Vec<Option<Square>> = &self.squares[y];
            if x < row.len() {
                match row[x] {
                    Some(Square::Occupied(q, _)) => q == p,
                    _ => false,
                }
            } else {
                false
            }
        } else {
            false
        }
    }

    /// Every maximal same-owner word passing through `position`, walking both
    /// axes outward while the owner stays the same.
    pub fn get_words(&self, position: Coordinate) -> (r: Vec<Vec<Coordinate>>)
        requires
            is_occupied(self.grid(), position) ==> owner_at(self.grid(), position)
                < self.orientations@.len(),
        ensures
            nested_view(r@) == words_through(self.grid(), self.orientations@, position),
            forall|i: int, j: int|
                0 <= i < r@.len() && 0 <= j < r@[i]@.len() ==> occupied_by(
                    self.grid(),
                    #[trigger] r@[i]@[j],
                    owner_at(self.grid(), position),
                ),
    {
        let ghost g = self.grid();
        let sq = match self.get(position) {
            Ok(s) => s,
            Err(_) => {
                let r: Vec<Vec<Coordinate>> = Vec::new();
                proof {
                    assert(nested_view(r@) =~= words_through(g, self.orientations@, position));
                }
                return r;
            },
        };
        let p = match sq {
            Square::Occupied(q, _) => q,
            Square::Empty => {
                let r: Vec<Vec<Coordinate>> = Vec::new();
                proof {
                    assert(nested_view(r@) =~= words_through(g, self.orientations@, position));
                }
                return r;
            },
        };
        assert(occupied_by(g, position, p));
        let d = self.orientations[p];
        let reversed = match d {
            Direction::North => true,
            Direction::West => true,
            _ => false,
        };
        let x = position.x;
        let y = position.y;

        // Horizontal extent.
        let mut lo = x;
        while lo >= 1 && self.owned(lo - 1, y, p)
            invariant
                lo <= x,
                g == self.grid(),
                forall|u: int| lo <= u <= x ==> #[trigger] occupied_by(g, Coordinate { x: u as usize, y }, p),
            decreases lo,
        {
            lo = lo - 1;
        }
        let mut hi = x;
        while hi < usize::MAX && self.owned(hi + 1, y, p)
            invariant
                x <= hi,
                g == self.grid(),
                forall|u: int| x <= u <= hi ==> #[trigger] occupied_by(g, Coordinate { x: u as usize, y }, p),
            decreases g[y as int].len() - hi,
        {
            hi = hi + 1;
        }
        proof {
            lemma_run_lo_x_char(g, p, x, y, lo);
            lemma_run_hi_x_char(g, p, x, y, hi);
        }

        // Vertical extent.
        let mut vlo = y;
        while vlo >= 1 && self.owned(x, vlo - 1, p)
            invariant
                vlo <= y,
                g == self.grid(),
                forall|u: int|
                    vlo <= u <= y ==> #[trigger] occupied_by(g, Coordinate { x, y: u as usize }, p),
            decreases vlo,
        {
            vlo = vlo - 1;
        }
        let mut vhi = y;
        while vhi < usize::MAX && self.owned(x, vhi + 1, p)
            invariant
                y <= vhi,
                g == self.grid(),
                forall|u: int|
                    y <= u <= vhi ==> #[trigger] occupied_by(g, Coordinate { x, y: u as usize }, p),
            decreases g.len() - vhi,
        {
            vhi = vhi + 1;
        }
        proof {
            lemma_run_lo_y_char(g, p, x, y, vlo);
            lemma_run_hi_y_char(g, p, x, y, vhi);
        }

        // Build the two runs in reading order.
        proof {
            let u: int = vhi as int;
            assert(occupied_by(g, Coordinate { x, y: u as usize }, p));
            assert(occupied_by(g, Coordinate { x, y: vhi }, p));
            assert(vhi < g.len());
            assert(g.len() == self.squares@.len());
        }
        let nrows = self.squares.len();
        proof {
            assert(vhi < nrows);
        }
        let vn = vhi - vlo + 1;
        let mut vert: Vec<Coordinate> = Vec::new();
        let mut k: usize = 0;
        while k < vn
            invariant
                k <= vn,
                vn == vhi - vlo + 1,
                vlo <= y <= vhi,
                vert@.len() == k,
                forall|i: int|
                    0 <= i < k ==> vert@[i] == (if reversed {
                        Coordinate { x, y: (vhi - i) as usize }
                    } else {
                        Coordinate { x, y: (vlo + i) as usize }
                    }),
            decreases vn - k,
        {
            if reversed {
                vert.push(Coordinate { x, y: vhi - k });
            } else {
                vert.push(Coordinate { x, y: vlo + k });
            }
            k += 1;
        }
        proof {
            let u: int = hi as int;
            assert(occupied_by(g, Coordinate { x: u as usize, y }, p));
            assert(occupied_by(g, Coordinate { x: hi, y }, p));
            assert(hi < g[y as int].len());
            assert(y < self.squares@.len());
            assert(g[y as int] == self.squares@[y as int]@);
        }
        let rlen = self.squares[y].len();
        proof {
            assert(hi < rlen);
        }
        let hn = hi - lo + 1;
        let mut horiz: Vec<Coordinate> = Vec::new();
        k = 0;
        while k < hn
            invariant
                k <= hn,
                hn == hi - lo + 1,
                lo <= x <= hi,
                horiz@.len() == k,
                forall|i: int|
                    0 <= i < k ==> horiz@[i] == (if reversed {
                        Coordinate { x: (hi - i) as usize, y }
                    } else {
                        Coordinate { x: (lo + i) as usize, y }
                    }),
            decreases hn - k,
        {
            if reversed {
                horiz.push(Coordinate { x: hi - k, y });
            } else {
                horiz.push(Coordinate { x: lo + k, y });
            }
            k += 1;
        }
        proof {
            assert(vert@ =~= vert_word(g, p, position, d));
            assert(horiz@ =~= horiz_word(g, p, position, d));
        }

        let vlen = vert.len();
        let hlen = horiz.len();
        let mut r: Vec<Vec<Coordinate>> = Vec::new();
        if vlen >= 2 && hlen >= 2 {
            r.push(vert);
            r.push(horiz);
        } else if vlen >= 2 {
            r.push(vert);
        } else if hlen >= 2 {
            r.push(horiz);
        } else {
            r.push(vert);
        }
        proof {
            assert(nested_view(r@) =~= words_through(g, self.orientations@, position));
        }
        r
    }

    /// The letters of each word, read off the grid in word order; fails if
    /// any referenced square does not hold a tile.
    pub fn word_strings(&self, words: &Vec<Vec<Coordinate>>) -> (r: Result<
        Vec<String>,
        GamePlayError,
    >)
        ensures
            r is Ok <==> words_all_occupied(self.grid(), nested_view(words@)),
            r matches Ok(ss) ==> ss@.len() == words@.len() && forall|i: int|
                0 <= i < ss@.len() ==> ss@[i]@ == strings_of(self.grid(), nested_view(words@))[i],
    {
        let ghost g = self.grid();
        let mut out: Vec<String> = Vec::new();
        let mut i: usize = 0;
        while i < words.len()
            invariant
                i <= words@.len(),
                g == self.grid(),
                out@.len() == i,
                forall|k: int, j: int|
                    0 <= k < i && 0 <= j < words@[k]@.len() ==> is_occupied(
                        g,
                        #[trigger] words@[k]@[j],
                    ),
                forall|k: int|
                    0 <= k < i ==> out@[k]@ == strings_of(g, nested_view(words@))[k],
            decreases words@.len() - i,
        {
            let word = &words[i];
            let mut s = String::new();
            let mut j: usize = 0;
            while j < word.len()
                invariant
                    j <= word@.len(),
                    i < words@.len(),
                    g == self.grid(),
                    word@ == words@[i as int]@,
                    s@.len() == j,
                    forall|u: int| 0 <= u < j ==> is_occupied(g, #[trigger] word@[u]),
                    forall|u: int|
                        0 <= u < j ==> s@[u] == crate::board::letter_at(g, word@[u]),
                decreases word@.len() - j,
            {
                match self.get(word[j]) {
                    Ok(Square::Occupied(_, l)) => {
                        s.push(l);
                    },
                    Ok(Square::Empty) => {
                        proof {
                            assert(nested_view(words@)[i as int][j as int] == word@[j as int]);
                            assert(!is_occupied(g, nested_view(words@)[i as int][j as int]));
                        }
                        return Err(GamePlayError::EmptySquareInWord { position: word[j] });
                    },
                    Err(e) => {
                        proof {
                            assert(nested_view(words@)[i as int][j as int] == word@[j as int]);
                            assert(!is_occupied(g, nested_view(words@)[i as int][j as int]));
                        }
                        return Err(e);
                    },
                }
                j += 1;
            }
            proof {
                assert(s@ =~= strings_of(g, nested_view(words@))[i as int]);
            }
            out.push(s);
            i += 1;
        }
        Ok(out)
    }
}

} // verus!
