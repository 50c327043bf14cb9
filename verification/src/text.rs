use vstd::prelude::*;

use crate::board::{
    cell, grid_connected, grid_rect, in_bounds, occupied_by, Board, Coordinate, Direction,
    GridView, Square,
};
use crate::discover::owner_at;
use crate::error::GamePlayError;
use crate::judge::str_eq;
use crate::truncation::{marked, marks_view, reach_ok};

verus! {

/// One rendered square: `_` for empty, the letter for a tile, `*` for a
/// position with no playable square.
pub open spec fn render_cell(sq: Option<Square>) -> char {
    match sq {
        Some(Square::Empty) => '_',
        Some(Square::Occupied(_, l)) => l,
        None => '*',
    }
}

/// One rendered row: the squares' characters separated by single spaces.
pub open spec fn render_row(row: Seq<Option<Square>>) -> Seq<char>
    decreases row.len(),
{
    if row.len() == 0 {
        Seq::empty()
    } else if row.len() == 1 {
        seq![render_cell(row[0])]
    } else {
        render_row(row.drop_last()) + seq![' ', render_cell(row.last())]
    }
}

/// The rendered grid: rows separated by single newlines.
pub open spec fn render_grid(g: GridView) -> Seq<char>
    decreases g.len(),
{
    if g.len() == 0 {
        Seq::empty()
    } else if g.len() == 1 {
        render_row(g[0])
    } else {
        render_grid(g.drop_last()) + seq!['\n'] + render_row(g.last())
    }
}

impl Board {
    /// Renders the board as text, one character per square.
    pub fn to_string(&self) -> (r: String)
        ensures
            r@ == render_grid(self.grid()),
    {
        let ghost g = self.grid();
        let mut s = String::new();
        let mut y: usize = 0;
        while y < self.squares.len()
            invariant
                y <= self.squares@.len(),
                g == self.grid(),
                s@ == render_grid(g.take(y as int)),
            decreases self.squares@.len() - y,
        {
            if y > 0 {
                s.push('\n');
            }
            let ghost rowv = g[y as int];
            let ghost prefix = s@;
            let row_len = self.squares[y].len();
            let mut x: usize = 0;
            while x < row_len
                invariant
                    x <= row_len,
                    y < self.squares@.len(),
                    g == self.grid(),
                    rowv == g[y as int],
                    row_len == rowv.len(),
                    prefix == render_grid(g.take(y as int)) + (if y > 0 {
                        seq!['\n']
                    } else {
                        Seq::<char>::empty()
                    }),
                    s@ == prefix + render_row(rowv.take(x as int)),
                decreases row_len - x,
            {
                if x > 0 {
                    s.push(' ');
                }
                let ch = match self.squares[y][x] {
                    Some(Square::Empty) => '_',
                    Some(Square::Occupied(_, l)) => l,
                    None => '*',
                };
                s.push(ch);
                proof {
                    assert(rowv[x as int] == self.squares@[y as int]@[x as int]);
                    assert(ch == render_cell(rowv[x as int]));
                    if x == 0 {
                        assert(rowv.take(1).len() == 1);
                        assert(rowv.take(1)[0] == rowv[0]);
                        assert(s@ =~= prefix + render_row(rowv.take(x + 1)));
                    } else {
                        assert(rowv.take(x + 1).drop_last() =~= rowv.take(x as int));
                        assert(rowv.take(x + 1).last() == rowv[x as int]);
                        assert(s@ =~= prefix + render_row(rowv.take(x + 1)));
                    }
                }
                x += 1;
            }
            proof {
                assert(rowv.take(rowv.len() as int) =~= rowv);
                if y == 0 {
                    assert(g.take(1).len() == 1);
                    assert(g.take(1)[0] == g[0]);
                    assert(s@ =~= render_grid(g.take(y + 1)));
                } else {
                    assert(g.take(y + 1).drop_last() =~= g.take(y as int));
                    assert(g.take(y + 1).last() == g[y as int]);
                    assert(s@ =~= render_grid(g.take(y + 1)));
                }
            }
            y += 1;
        }
        proof {
            assert(g.take(g.len() as int) =~= g);
        }
        s
    }

    /// Builds a board from its textual rendering. Tiles are assigned to the
    /// first player whose root reaches them. The text must round-trip
    /// exactly, every square of the result is playable, no tile carries a
    /// character that also renders an empty or missing square, and every
    /// tile connects to its owner's root.
    pub fn from_string(s: String, roots: Vec<Coordinate>, orientations: Vec<Direction>) -> (r:
        Result<Board, GamePlayError>)
        ensures
            r matches Ok(b) ==> {
                &&& b.wf()
                &&& b.connected()
                &&& b.roots@ == roots@
                &&& b.orientations@ == orientations@
                &&& render_grid(b.grid()) == s@
                &&& forall|c: Coordinate|
                    in_bounds(b.grid(), c) ==> cell_ok(#[trigger] cell(b.grid(), c))
            },
    {
        let ghost roots_v = roots@;
        let ghost orients_v = orientations@;
        if roots.len() != orientations.len() {
            return Err(GamePlayError::MalformedGrid);
        }
        // Parse the text into rows of squares; tiles start unowned.
        let n = s.as_str().unicode_len();
        let mut squares: Vec<Vec<Option<Square>>> = Vec::new();
        let mut row: Vec<Option<Square>> = Vec::new();
        let mut expect_cell = true;
        let mut i: usize = 0;
        while i < n
            invariant
                i <= n,
                n == s@.len(),
            decreases n - i,
        {
            let c = s.as_str().get_char(i);
            if c == '\n' {
                if expect_cell {
                    return Err(GamePlayError::MalformedGrid);
                }
                squares.push(row);
                row = Vec::new();
                expect_cell = true;
            } else if expect_cell {
                if c == ' ' || c == '*' {
                    return Err(GamePlayError::MalformedGrid);
                }
                if c == '_' {
                    row.push(Some(Square::Empty));
                } else {
                    row.push(Some(Square::Occupied(0, c)));
                }
                expect_cell = false;
            } else {
                if c != ' ' {
                    return Err(GamePlayError::MalformedGrid);
                }
                expect_cell = true;
            }
            i += 1;
        }
        if expect_cell {
            return Err(GamePlayError::MalformedGrid);
        }
        squares.push(row);
        // The grid must be a rectangle and every root must lie on it.
        let h = squares.len();
        let w = squares[0].len();
        let mut y: usize = 0;
        while y < h
            invariant
                y <= h,
                h == squares@.len(),
                w == squares@[0]@.len(),
                forall|u: int| 0 <= u < y ==> (#[trigger] squares@[u])@.len() == w,
            decreases h - y,
        {
            if squares[y].len() != w {
                return Err(GamePlayError::MalformedGrid);
            }
            y += 1;
        }
        let mut pr: usize = 0;
        while pr < roots.len()
            invariant
                pr <= roots@.len(),
                h == squares@.len(),
                w == squares@[0]@.len(),
                forall|u: int| 0 <= u < h ==> (#[trigger] squares@[u])@.len() == w,
                forall|u: int| 0 <= u < pr ==> (#[trigger] roots@[u]).y < h && roots@[u].x < w,
            decreases roots@.len() - pr,
        {
            let rc = roots[pr];
            if rc.y >= h || rc.x >= w {
                return Err(GamePlayError::MalformedGrid);
            }
            pr += 1;
        }
        let mut board = Board { squares, roots, orientations };
        proof {
            assert(board.grid().len() == h);
            assert forall|u: int| 0 <= u < h implies (#[trigger] board.grid()[u]).len() == w by {
                assert(board.grid()[u] == board.squares@[u]@);
            }
            assert(grid_rect(board.grid()));
            assert forall|u: int| 0 <= u < board.roots@.len() implies in_bounds(
                board.grid(),
                #[trigger] board.roots@[u],
            ) by {
                assert(board.grid()[board.roots@[u].y as int].len() == w);
            }
            assert(board.wf());
        }
        // Claim each root's component for its player, walking outward.
        let mut claimed: Vec<Vec<bool>> = Vec::new();
        y = 0;
        while y < h
            invariant
                y <= h,
                claimed@.len() == y,
                forall|u: int| 0 <= u < y ==> (#[trigger] claimed@[u])@.len() == w,
            decreases h - y,
        {
            let mut crow: Vec<bool> = Vec::new();
            let mut x: usize = 0;
            while x < w
                invariant
                    x <= w,
                    crow@.len() == x,
                decreases w - x,
            {
                crow.push(false);
                x += 1;
            }
            claimed.push(crow);
            y += 1;
        }
        let mut p: usize = 0;
        while p < board.roots.len()
            invariant
                p <= board.roots@.len(),
                board.roots@ == roots_v,
                board.orientations@ == orients_v,
                board.grid().len() == h,
                forall|u: int| 0 <= u < h ==> (#[trigger] board.grid()[u]).len() == w,
                board.wf(),
                claimed@.len() == h,
                forall|u: int| 0 <= u < h ==> (#[trigger] claimed@[u])@.len() == w,
            decreases board.roots@.len() - p,
        {
            let rc = board.roots[p];
            proof {
                assert(in_bounds(board.grid(), board.roots@[p as int]));
                assert(board.grid()[rc.y as int].len() == w);
            }
            let mut queue: Vec<Coordinate> = Vec::new();
            board.claim_step(&mut claimed, &mut queue, p, rc);
            let mut fuel: usize = usize::MAX;
            while queue.len() > 0 && fuel > 0
                invariant
                    board.roots@ == roots_v,
                    board.orientations@ == orients_v,
                    board.grid().len() == h,
                    forall|u: int| 0 <= u < h ==> (#[trigger] board.grid()[u]).len() == w,
                    board.wf(),
                    claimed@.len() == h,
                    forall|u: int| 0 <= u < h ==> (#[trigger] claimed@[u])@.len() == w,
                    forall|u: int|
                        0 <= u < queue@.len() ==> (#[trigger] queue@[u]).y < h && queue@[u].x < w,
                decreases fuel,
            {
                fuel = fuel - 1;
                let c = match queue.pop() {
                    Some(cc) => cc,
                    None => {
                        proof {
                            assert(false);
                        }
                        Coordinate { x: 0, y: 0 }
                    },
                };
                if c.y >= 1 {
                    board.claim_step(
                        &mut claimed,
                        &mut queue,
                        p,
                        Coordinate { x: c.x, y: c.y - 1 },
                    );
                }
                if c.y + 1 < h {
                    board.claim_step(
                        &mut claimed,
                        &mut queue,
                        p,
                        Coordinate { x: c.x, y: c.y + 1 },
                    );
                }
                if c.x + 1 < w {
                    board.claim_step(
                        &mut claimed,
                        &mut queue,
                        p,
                        Coordinate { x: c.x + 1, y: c.y },
                    );
                }
                if c.x >= 1 {
                    board.claim_step(
                        &mut claimed,
                        &mut queue,
                        p,
                        Coordinate { x: c.x - 1, y: c.y },
                    );
                }
            }
            p += 1;
        }
        // Every square must be playable and carry an unambiguous character.
        let ghost g = board.grid();
        y = 0;
        while y < h
            invariant
                y <= h,
                g == board.grid(),
                g.len() == h,
                forall|u: int| 0 <= u < h ==> (#[trigger] g[u]).len() == w,
                forall|yy: int, xx: int|
                    0 <= yy < y && 0 <= xx < w ==> cell_ok(#[trigger] g[yy][xx]),
            decreases h - y,
        {
            let mut x: usize = 0;
            while x < w
                invariant
                    x <= w,
                    y < h,
                    g == board.grid(),
                    g.len() == h,
                    forall|u: int| 0 <= u < h ==> (#[trigger] g[u]).len() == w,
                    forall|yy: int, xx: int|
                        0 <= yy < y && 0 <= xx < w ==> cell_ok(#[trigger] g[yy][xx]),
                    forall|xx: int| 0 <= xx < x ==> cell_ok(#[trigger] g[y as int][xx]),
                decreases w - x,
            {
                proof {
                    assert(g[y as int][x as int] == board.squares@[y as int]@[x as int]);
                }
                let bad = match board.squares[y][x] {
                    None => true,
                    Some(Square::Occupied(_, l)) => l == '_' || l == ' ' || l == '\n' || l
                        == '*',
                    Some(Square::Empty) => false,
                };
                if bad {
                    return Err(GamePlayError::MalformedGrid);
                }
                x += 1;
            }
            y += 1;
        }
        // Every tile must connect to its owner's root.
        let marks = board.reach_marks();
        y = 0;
        while y < h
            invariant
                y <= h,
                g == board.grid(),
                g.len() == h,
                forall|u: int| 0 <= u < h ==> (#[trigger] g[u]).len() == w,
                crate::truncation::marks_dims(g, marks_view(marks@)),
                forall|cc: Coordinate|
                    in_bounds(g, cc) ==> (#[trigger] marked(marks_view(marks@), cc) <==> reach_ok(
                        g,
                        board.roots@,
                        cc,
                    )),
                forall|cc: Coordinate|
                    cc.y < y && in_bounds(g, cc) ==> (crate::board::is_occupied(g, cc)
                        ==> #[trigger] marked(marks_view(marks@), cc)),
            decreases h - y,
        {
            let mut x: usize = 0;
            while x < w
                invariant
                    x <= w,
                    y < h,
                    g == board.grid(),
                    g.len() == h,
                    forall|u: int| 0 <= u < h ==> (#[trigger] g[u]).len() == w,
                    crate::truncation::marks_dims(g, marks_view(marks@)),
                    forall|cc: Coordinate|
                        in_bounds(g, cc) ==> (#[trigger] marked(marks_view(marks@), cc)
                            <==> reach_ok(g, board.roots@, cc)),
                    forall|cc: Coordinate|
                        (cc.y < y || (cc.y == y && cc.x < x)) && in_bounds(g, cc) ==> (
                        crate::board::is_occupied(g, cc) ==> #[trigger] marked(
                            marks_view(marks@),
                            cc,
                        )),
                decreases w - x,
            {
                let occ = match board.squares[y][x] {
                    Some(Square::Occupied(_, _)) => true,
                    _ => false,
                };
                if occ {
                    proof {
                        assert(marks_view(marks@)[y as int].len() == g[y as int].len());
                    }
                    if !marks[y][x] {
                        return Err(GamePlayError::MalformedGrid);
                    }
                }
                proof {
                    assert(cell(g, Coordinate { x, y }) == board.squares@[y as int]@[x as int]);
                }
                x += 1;
            }
            y += 1;
        }
        proof {
            assert forall|cc: Coordinate, qq: usize| #[trigger] occupied_by(
                g,
                cc,
                qq,
            ) implies crate::board::reachable(g, board.roots@, qq, cc) by {
                assert(in_bounds(g, cc));
                assert(cc.y < h);
                assert(crate::board::is_occupied(g, cc));
                assert(marked(marks_view(marks@), cc));
                assert(reach_ok(g, board.roots@, cc));
                assert(owner_at(g, cc) == qq);
            }
            assert(grid_connected(g, board.roots@));
            assert forall|cc: Coordinate|
                in_bounds(board.grid(), cc) implies cell_ok(#[trigger] cell(board.grid(), cc)) by {
                assert(cell(board.grid(), cc) == g[cc.y as int][cc.x as int]);
            }
        }
        // The board must round-trip to exactly the given text.
        let rendered = Board::to_string(&board);
        if !str_eq(rendered.as_str(), s.as_str()) {
            return Err(GamePlayError::MalformedGrid);
        }
        Ok(board)
    }

    /// Claims the tile at `nd` for player `p` when it is unclaimed.
    fn claim_step(
        &mut self,
        claimed: &mut Vec<Vec<bool>>,
        queue: &mut Vec<Coordinate>,
        p: usize,
        nd: Coordinate,
    )
        requires
            nd.y < old(self).grid().len(),
            nd.x < old(self).grid()[nd.y as int].len(),
            old(claimed)@.len() == old(self).grid().len(),
            forall|u: int|
                0 <= u < old(claimed)@.len() ==> (#[trigger] old(claimed)@[u])@.len()
                    == old(self).grid()[u].len(),
            old(self).wf(),
            forall|u: int|
                0 <= u < old(queue)@.len() ==> (#[trigger] old(queue)@[u]).y
                    < old(self).grid().len() && old(queue)@[u].x
                    < old(self).grid()[old(queue)@[u].y as int].len(),
        ensures
            final(self).roots@ == old(self).roots@,
            final(self).orientations@ == old(self).orientations@,
            final(self).grid().len() == old(self).grid().len(),
            forall|u: int|
                0 <= u < old(self).grid().len() ==> (#[trigger] final(self).grid()[u]).len()
                    == old(self).grid()[u].len(),
            final(self).wf(),
            final(claimed)@.len() == old(claimed)@.len(),
            forall|u: int|
                0 <= u < old(claimed)@.len() ==> (#[trigger] final(claimed)@[u])@.len()
                    == old(claimed)@[u]@.len(),
            forall|u: int|
                0 <= u < final(queue)@.len() ==> (#[trigger] final(queue)@[u]).y
                    < old(self).grid().len() && final(queue)@[u].x
                    < old(self).grid()[final(queue)@[u].y as int].len(),
    {
        let l = match self.squares[nd.y][nd.x] {
            Some(Square::Occupied(_, l)) => l,
            _ => {
                return ;
            },
        };
        if claimed[nd.y][nd.x] {
            return ;
        }
        claimed[nd.y].set(nd.x, true);
        let ghost gprev = self.grid();
        self.squares[nd.y].set(nd.x, Some(Square::Occupied(p, l)));
        queue.push(nd);
        proof {
            assert forall|u: int|
                0 <= u < self.grid().len() implies (#[trigger] self.grid()[u]).len()
                == gprev[u].len() by {
                if u == nd.y as int {
                    assert(self.grid()[u] == gprev[u].update(
                        nd.x as int,
                        Some(Square::Occupied(p, l)),
                    ));
                } else {
                    assert(self.grid()[u] == gprev[u]);
                }
            }
            assert(grid_rect(self.grid()));
            assert forall|u: int| 0 <= u < self.roots@.len() implies in_bounds(
                self.grid(),
                #[trigger] self.roots@[u],
            ) by {
                assert(in_bounds(gprev, old(self).roots@[u]));
                assert(self.grid()[self.roots@[u].y as int].len() == gprev[
                    self.roots@[u].y as int
                ].len());
            }
        }
    }
}

/// A square `from_string` accepts: playable, and when occupied its letter
/// is none of the characters that render an empty or missing square or a
/// separator.
pub open spec fn cell_ok(sq: Option<Square>) -> bool {
    match sq {
        None => false,
        Some(Square::Occupied(_, l)) => l != '_' && l != ' ' && l != '\n' && l != '*',
        Some(Square::Empty) => true,
    }
}

} // verus!

