use vstd::prelude::*;

use crate::error::GamePlayError;

verus! {

/// A zero-based (x, y) position on the grid. x grows eastward, y southward.
#[derive(Clone, Copy, Debug, PartialEq, Eq, Structural)]
pub struct Coordinate {
    pub x: usize,
    pub y: usize,
}

/// One playable square: empty, or holding a letter owned by a player index.
#[derive(Clone, Copy, Debug, PartialEq, Eq, Structural)]
pub enum Square {
    Empty,
    Occupied(usize, char),
}

/// A compass direction. Each player reads words along their direction, and
/// must reach the opposite edge of the board to win.
#[derive(Clone, Copy, Debug, PartialEq, Eq, Structural)]
pub enum Direction {
    North,
    East,
    South,
    West,
}

impl Direction {
    pub open spec fn opposite_spec(self) -> Direction {
        match self {
            Direction::North => Direction::South,
            Direction::South => Direction::North,
            Direction::East => Direction::West,
            Direction::West => Direction::East,
        }
    }

    pub fn opposite(self) -> (r: Direction)
        ensures
            r == self.opposite_spec(),
    {
        match self {
            Direction::North => Direction::South,
            Direction::South => Direction::North,
            Direction::East => Direction::West,
            Direction::West => Direction::East,
        }
    }
}

/// The mathematical value of a grid: a sequence of rows, each a sequence of
/// squares; `None` marks a position with no playable square at all.
pub type GridView = Seq<Seq<Option<Square>>>;

pub open spec fn grid_width(g: GridView) -> nat {
    if g.len() == 0 {
        0
    } else {
        g[0].len()
    }
}

/// Every row has the same length.
pub open spec fn grid_rect(g: GridView) -> bool {
    forall|y: int| 0 <= y < g.len() ==> (#[trigger] g[y]).len() == grid_width(g)
}

pub open spec fn in_bounds(g: GridView, c: Coordinate) -> bool {
    c.y < g.len() && c.x < g[c.y as int].len()
}

pub open spec fn cell(g: GridView, c: Coordinate) -> Option<Square>
    recommends
        in_bounds(g, c),
{
    g[c.y as int][c.x as int]
}

/// The coordinate holds a tile owned by player `p`.
pub open spec fn occupied_by(g: GridView, c: Coordinate, p: usize) -> bool {
    in_bounds(g, c) && match cell(g, c) {
        Some(Square::Occupied(q, _)) => q == p,
        _ => false,
    }
}

pub open spec fn is_occupied(g: GridView, c: Coordinate) -> bool {
    in_bounds(g, c) && (cell(g, c) matches Some(Square::Occupied(_, _)))
}

pub open spec fn letter_at(g: GridView, c: Coordinate) -> char
    recommends
        is_occupied(g, c),
{
    match cell(g, c) {
        Some(Square::Occupied(_, l)) => l,
        _ => arbitrary(),
    }
}

/// Cardinal adjacency: the two coordinates differ by one step along one axis.
pub open spec fn adjacent(a: Coordinate, b: Coordinate) -> bool {
    ||| (a.x == b.x && (a.y + 1 == b.y || b.y + 1 == a.y))
    ||| (a.y == b.y && (a.x + 1 == b.x || b.x + 1 == a.x))
}

/// A walk over squares all occupied by `p`, each step cardinally adjacent.
pub open spec fn is_path(g: GridView, p: usize, path: Seq<Coordinate>) -> bool {
    &&& path.len() > 0
    &&& forall|i: int| 0 <= i < path.len() ==> occupied_by(g, #[trigger] path[i], p)
    &&& forall|i: int| 0 <= i < path.len() - 1 ==> adjacent(#[trigger] path[i], path[i + 1])
}

/// The tile at `c` connects to its owner's root through same-owner tiles.
pub open spec fn reachable(g: GridView, roots: Seq<Coordinate>, p: usize, c: Coordinate) -> bool {
    &&& p < roots.len()
    &&& exists|path: Seq<Coordinate>|
        is_path(g, p, path) && path.first() == roots[p as int] && path.last() == c
}

/// The grid invariant: every tile connects to its owner's root.
pub open spec fn grid_connected(g: GridView, roots: Seq<Coordinate>) -> bool {
    forall|c: Coordinate, p: usize| #[trigger] occupied_by(g, c, p) ==> reachable(g, roots, p, c)
}

/// The board of one game: the squares, one root per player, and one reading
/// orientation per player.
pub struct Board {
    pub squares: Vec<Vec<Option<Square>>>,
    pub roots: Vec<Coordinate>,
    pub orientations: Vec<Direction>,
}

impl Board {
    pub open spec fn grid(self) -> GridView {
        Seq::new(self.squares@.len(), |y: int| self.squares@[y]@)
    }

    pub open spec fn height(self) -> nat {
        self.grid().len()
    }

    pub open spec fn width(self) -> nat {
        grid_width(self.grid())
    }

    /// Structural well-formedness: a rectangle, one orientation per root,
    /// every root in bounds.
    pub open spec fn wf(self) -> bool {
        &&& grid_rect(self.grid())
        &&& self.roots@.len() == self.orientations@.len()
        &&& forall|p: int|
            0 <= p < self.roots@.len() ==> in_bounds(self.grid(), #[trigger] self.roots@[p])
    }

    pub open spec fn connected(self) -> bool {
        grid_connected(self.grid(), self.roots@)
    }

    /// The two boards hold the same game state.
    pub open spec fn same_board(self, other: Board) -> bool {
        &&& self.grid() == other.grid()
        &&& self.roots@ == other.roots@
        &&& self.orientations@ == other.orientations@
    }

    pub open spec fn get_spec(self, position: Coordinate) -> Result<Square, GamePlayError> {
        if !in_bounds(self.grid(), position) {
            Err(GamePlayError::OutSideBoardDimensions { position })
        } else {
            match cell(self.grid(), position) {
                Some(sq) => Ok(sq),
                None => Err(GamePlayError::InvalidPosition { position }),
            }
        }
    }

    /// Bounds-checked read of one square.
    pub fn get(&self, position: Coordinate) -> (r: Result<Square, GamePlayError>)
        ensures
            r == self.get_spec(position),
    {
        if position.y < self.squares.len() {
            let row: &Vec<Option<Square>> = &self.squares[position.y];
            if position.x < row.len() {
                match row[position.x] {
                    Some(sq) => Ok(sq),
                    None => Err(GamePlayError::InvalidPosition { position }),
                }
            } else {
                Err(GamePlayError::OutSideBoardDimensions { position })
            }
        } else {
            Err(GamePlayError::OutSideBoardDimensions { position })
        }
    }

    /// The position names a playable square that can be written or cleared.
    pub open spec fn can_write(self, position: Coordinate) -> bool {
        in_bounds(self.grid(), position) && cell(self.grid(), position) is Some
    }

    /// The error that `get`, `set` and `clear` agree on for a bad position.
    pub open spec fn position_error(self, position: Coordinate) -> GamePlayError
        recommends
            !self.can_write(position),
    {
        if !in_bounds(self.grid(), position) {
            GamePlayError::OutSideBoardDimensions { position }
        } else {
            GamePlayError::InvalidPosition { position }
        }
    }

    /// Writes a tile for a player. The grid is unchanged on failure.
    pub fn set(&mut self, position: Coordinate, player: usize, tile: char) -> (r: Result<
        (),
        GamePlayError,
    >)
        ensures
            r is Ok <==> old(self).can_write(position),
            old(self).can_write(position) ==> final(self).grid() == set_view(
                old(self).grid(),
                position,
                player,
                tile,
            ),
            !old(self).can_write(position) ==> final(self).same_board(*old(self)) && r == Err::<
                (),
                GamePlayError,
            >(old(self).position_error(position)),
            final(self).roots@ == old(self).roots@,
            final(self).orientations@ == old(self).orientations@,
            final(self).height() == old(self).height(),
            forall|y: int|
                0 <= y < old(self).grid().len() ==> (#[trigger] final(self).grid()[y]).len() == old(
                    self,
                ).grid()[y].len(),
    {
        self.put(position, Square::Occupied(player, tile))
    }

    /// Resets a playable square to empty. The grid is unchanged on failure.
    pub fn clear(&mut self, position: Coordinate) -> (r: Result<(), GamePlayError>)
        ensures
            r is Ok <==> old(self).can_write(position),
            old(self).can_write(position) ==> final(self).grid() == clear_view(
                old(self).grid(),
                position,
            ),
            !old(self).can_write(position) ==> final(self).same_board(*old(self)) && r == Err::<
                (),
                GamePlayError,
            >(old(self).position_error(position)),
            final(self).roots@ == old(self).roots@,
            final(self).orientations@ == old(self).orientations@,
            final(self).height() == old(self).height(),
            forall|y: int|
                0 <= y < old(self).grid().len() ==> (#[trigger] final(self).grid()[y]).len() == old(
                    self,
                ).grid()[y].len(),
    {
        self.put(position, Square::Empty)
    }

    /// Shared write path of `set` and `clear`.
    fn put(&mut self, position: Coordinate, value: Square) -> (r: Result<(), GamePlayError>)
        ensures
            r is Ok <==> old(self).can_write(position),
            old(self).can_write(position) ==> final(self).grid() == put_view(
                old(self).grid(),
                position,
                value,
            ),
            !old(self).can_write(position) ==> final(self).same_board(*old(self)) && r == Err::<
                (),
                GamePlayError,
            >(old(self).position_error(position)),
            final(self).roots@ == old(self).roots@,
            final(self).orientations@ == old(self).orientations@,
            final(self).height() == old(self).height(),
            forall|y: int|
                0 <= y < old(self).grid().len() ==> (#[trigger] final(self).grid()[y]).len() == old(
                    self,
                ).grid()[y].len(),
    {
        if position.y < self.squares.len() && position.x < self.squares[position.y].len() {
            match self.squares[position.y][position.x] {
                Some(_) => {
                    self.squares[position.y].set(position.x, Some(value));
                    proof {
                        assert(final(self).grid() =~~= put_view(
                            old(self).grid(),
                            position,
                            value,
                        ));
                    }
                    Ok(())
                },
                None => Err(GamePlayError::InvalidPosition { position }),
            }
        } else {
            Err(GamePlayError::OutSideBoardDimensions { position })
        }
    }

    pub open spec fn root_spec(self, player: usize) -> Result<Coordinate, GamePlayError> {
        if player < self.roots@.len() {
            Ok(self.roots@[player as int])
        } else {
            Err(GamePlayError::NonExistentPlayer { index: player })
        }
    }

    /// The player's configured root coordinate.
    pub fn get_root(&self, player: usize) -> (r: Result<Coordinate, GamePlayError>)
        ensures
            r == self.root_spec(player),
    {
        if player < self.roots.len() {
            Ok(self.roots[player])
        } else {
            Err(GamePlayError::NonExistentPlayer { index: player })
        }
    }

    pub fn get_orientations(&self) -> (r: &Vec<Direction>)
        ensures
            r@ == self.orientations@,
    {
        &self.orientations
    }

    /// The up-to-four cardinally adjacent playable squares, each paired with
    /// its content, in north, south, east, west order.
    pub fn neighbouring_squares(&self, position: Coordinate) -> (r: Vec<(Coordinate, Square)>)
        ensures
            r@ == neighbours_view(self.grid(), position),
    {
        let mut r: Vec<(Coordinate, Square)> = Vec::new();
        if position.y >= 1 {
            let nc = Coordinate { x: position.x, y: position.y - 1 };
            if let Ok(sq) = self.get(nc) {
                r.push((nc, sq));
            }
        }
        if position.y < usize::MAX {
            let nc = Coordinate { x: position.x, y: position.y + 1 };
            if let Ok(sq) = self.get(nc) {
                r.push((nc, sq));
            }
        }
        if position.x < usize::MAX {
            let nc = Coordinate { x: position.x + 1, y: position.y };
            if let Ok(sq) = self.get(nc) {
                r.push((nc, sq));
            }
        }
        if position.x >= 1 {
            let nc = Coordinate { x: position.x - 1, y: position.y };
            if let Ok(sq) = self.get(nc) {
                r.push((nc, sq));
            }
        }
        proof {
            assert(r@ =~= neighbours_view(self.grid(), position));
        }
        r
    }
}

/// The neighbouring playable square one step in direction `d`, if any,
/// paired with its content.
pub open spec fn neighbour_entry(g: GridView, c: Coordinate, d: Direction) -> Seq<
    (Coordinate, Square),
> {
    let oc = match d {
        Direction::North => if c.y >= 1 {
            Some(Coordinate { x: c.x, y: (c.y - 1) as usize })
        } else {
            None
        },
        Direction::South => if c.y < usize::MAX {
            Some(Coordinate { x: c.x, y: (c.y + 1) as usize })
        } else {
            None
        },
        Direction::East => if c.x < usize::MAX {
            Some(Coordinate { x: (c.x + 1) as usize, y: c.y })
        } else {
            None
        },
        Direction::West => if c.x >= 1 {
            Some(Coordinate { x: (c.x - 1) as usize, y: c.y })
        } else {
            None
        },
    };
    match oc {
        Some(n) => if in_bounds(g, n) {
            match cell(g, n) {
                Some(sq) => seq![(n, sq)],
                None => Seq::empty(),
            }
        } else {
            Seq::empty()
        },
        None => Seq::empty(),
    }
}

/// All neighbouring playable squares, in north, south, east, west order.
pub open spec fn neighbours_view(g: GridView, c: Coordinate) -> Seq<(Coordinate, Square)> {
    neighbour_entry(g, c, Direction::North) + neighbour_entry(g, c, Direction::South)
        + neighbour_entry(g, c, Direction::East) + neighbour_entry(g, c, Direction::West)
}

/// The grid after writing `value` at `c`.
pub open spec fn put_view(g: GridView, c: Coordinate, value: Square) -> GridView
    recommends
        in_bounds(g, c),
{
    g.update(c.y as int, g[c.y as int].update(c.x as int, Some(value)))
}

pub open spec fn set_view(g: GridView, c: Coordinate, p: usize, t: char) -> GridView
    recommends
        in_bounds(g, c),
{
    put_view(g, c, Square::Occupied(p, t))
}

pub open spec fn clear_view(g: GridView, c: Coordinate) -> GridView
    recommends
        in_bounds(g, c),
{
    put_view(g, c, Square::Empty)
}


impl Board {
    /// Both named squares hold tiles of the player.
    pub open spec fn swap_ok(self, player: usize, a: Coordinate, b: Coordinate) -> bool {
        occupied_by(self.grid(), a, player) && occupied_by(self.grid(), b, player)
    }

    /// The grid after the letters at `a` and `b` change places.
    pub open spec fn swap_view(self, player: usize, a: Coordinate, b: Coordinate) -> GridView
        recommends
            self.swap_ok(player, a, b),
    {
        put_view(
            put_view(self.grid(), a, Square::Occupied(player, letter_at(self.grid(), b))),
            b,
            Square::Occupied(player, letter_at(self.grid(), a)),
        )
    }

    /// The first error a swap runs into, if any: each position must name a
    /// square occupied by the player.
    pub open spec fn swap_error(self, player: usize, a: Coordinate, b: Coordinate) -> Option<
        GamePlayError,
    > {
        if !in_bounds(self.grid(), a) {
            Some(GamePlayError::OutSideBoardDimensions { position: a })
        } else if cell(self.grid(), a) is None {
            Some(GamePlayError::InvalidPosition { position: a })
        } else if !occupied_by(self.grid(), a, player) {
            Some(GamePlayError::UnownedSwap { position: a })
        } else if !in_bounds(self.grid(), b) {
            Some(GamePlayError::OutSideBoardDimensions { position: b })
        } else if cell(self.grid(), b) is None {
            Some(GamePlayError::InvalidPosition { position: b })
        } else if !occupied_by(self.grid(), b, player) {
            Some(GamePlayError::UnownedSwap { position: b })
        } else {
            None
        }
    }

    /// Exchanges the letters at two squares the player occupies. No battle
    /// follows a swap.
    pub fn swap(&mut self, player: usize, positions: [Coordinate; 2]) -> (r: Result<
        (),
        GamePlayError,
    >)
        ensures
            r is Ok <==> old(self).swap_ok(player, positions@[0], positions@[1]),
            old(self).swap_ok(player, positions@[0], positions@[1]) ==> final(self).grid() == old(
                self,
            ).swap_view(player, positions@[0], positions@[1]),
            !old(self).swap_ok(player, positions@[0], positions@[1]) ==> final(self).same_board(
                *old(self),
            ) && r == Err::<(), GamePlayError>(
                old(self).swap_error(player, positions@[0], positions@[1]).unwrap(),
            ),
            final(self).roots@ == old(self).roots@,
            final(self).orientations@ == old(self).orientations@,
            final(self).height() == old(self).height(),
            forall|y: int|
                0 <= y < old(self).grid().len() ==> (#[trigger] final(self).grid()[y]).len() == old(
                    self,
                ).grid()[y].len(),
    {
        let a = positions[0];
        let b = positions[1];
        let la = match self.get(a) {
            Ok(Square::Occupied(q, l)) => {
                if q != player {
                    return Err(GamePlayError::UnownedSwap { position: a });
                }
                l
            },
            Ok(Square::Empty) => {
                return Err(GamePlayError::UnownedSwap { position: a });
            },
            Err(e) => {
                return Err(e);
            },
        };
        let lb = match self.get(b) {
            Ok(Square::Occupied(q, l)) => {
                if q != player {
                    return Err(GamePlayError::UnownedSwap { position: b });
                }
                l
            },
            Ok(Square::Empty) => {
                return Err(GamePlayError::UnownedSwap { position: b });
            },
            Err(e) => {
                return Err(e);
            },
        };
        let r1 = self.put(a, Square::Occupied(player, lb));
        proof {
            assert(r1 is Ok);
        }
        let r2 = self.put(b, Square::Occupied(player, la));
        proof {
            assert(r2 is Ok);
        }
        Ok(())
    }

    /// A fresh board: `width` by `height` playable squares, plus one extra
    /// row at each end holding only that player's root square.
    pub fn new(width: usize, height: usize) -> (r: Board)
        requires
            1 <= width,
            height + 2 <= usize::MAX,
        ensures
            r.wf(),
            r.connected(),
            r.height() == height + 2,
            r.roots@.len() == 2,
            r.orientations@ == seq![Direction::North, Direction::South],
            r.roots@[0] == (Coordinate { x: (width / 2) as usize, y: 0 }),
            r.roots@[1] == (Coordinate {
                x: (width / 2 + width % 2 - 1) as usize,
                y: (height + 1) as usize,
            }),
            forall|y: int| 0 <= y < height + 2 ==> (#[trigger] r.grid()[y]).len() == width,
            forall|c: Coordinate|
                in_bounds(r.grid(), c) ==> cell(r.grid(), c) == (if c.y == 0 && c != r.roots@[0] {
                    Option::<Square>::None
                } else if c.y == height + 1 && c != r.roots@[1] {
                    Option::<Square>::None
                } else {
                    Some(Square::Empty)
                }),
    {
        let root0 = Coordinate { x: width / 2, y: 0 };
        let root1 = Coordinate { x: width / 2 + width % 2 - 1, y: height + 1 };
        let total = height + 2;
        let mut squares: Vec<Vec<Option<Square>>> = Vec::new();
        let mut y: usize = 0;
        while y < total
            invariant
                y <= total,
                total == height + 2,
                1 <= width,
                root0 == (Coordinate { x: (width / 2) as usize, y: 0 }),
                root1 == (Coordinate {
                    x: (width / 2 + width % 2 - 1) as usize,
                    y: (height + 1) as usize,
                }),
                squares@.len() == y,
                forall|u: int| 0 <= u < y ==> (#[trigger] squares@[u])@.len() == width,
                forall|u: int, v: int|
                    0 <= u < y && 0 <= v < width ==> #[trigger] squares@[u]@[v] == (if u == 0 && !(
                    v == root0.x && 0 == root0.y) {
                        Option::<Square>::None
                    } else if u == height + 1 && !(v == root1.x) {
                        Option::<Square>::None
                    } else {
                        Some(Square::Empty)
                    }),
            decreases total - y,
        {
            let mut row: Vec<Option<Square>> = Vec::new();
            let mut x: usize = 0;
            let edge_row = y == 0 || y == total - 1;
            while x < width
                invariant
                    x <= width,
                    row@.len() == x,
                    edge_row == (y == 0 || y == total - 1),
                    total == height + 2,
                    y < total,
                    root0 == (Coordinate { x: (width / 2) as usize, y: 0 }),
                    root1 == (Coordinate {
                        x: (width / 2 + width % 2 - 1) as usize,
                        y: (height + 1) as usize,
                    }),
                    forall|v: int|
                        0 <= v < x ==> #[trigger] row@[v] == (if y == 0 && !(v == root0.x) {
                            Option::<Square>::None
                        } else if y == height + 1 && !(v == root1.x) {
                            Option::<Square>::None
                        } else {
                            Some(Square::Empty)
                        }),
                decreases width - x,
            {
                if edge_row {
                    let keep = if y == 0 {
                        x == root0.x
                    } else {
                        x == root1.x
                    };
                    if keep {
                        row.push(Some(Square::Empty));
                    } else {
                        row.push(None);
                    }
                } else {
                    row.push(Some(Square::Empty));
                }
                x += 1;
            }
            squares.push(row);
            y += 1;
        }
        let mut roots: Vec<Coordinate> = Vec::new();
        roots.push(root0);
        roots.push(root1);
        let mut orientations: Vec<Direction> = Vec::new();
        orientations.push(Direction::North);
        orientations.push(Direction::South);
        let b = Board { squares, roots, orientations };
        proof {
            assert(b.grid().len() == height + 2);
            assert(forall|u: int|
                0 <= u < height + 2 ==> (#[trigger] b.grid()[u]).len() == width);
            assert(grid_rect(b.grid()));
            assert(b.orientations@ =~= seq![Direction::North, Direction::South]);
            assert(in_bounds(b.grid(), b.roots@[0]));
            assert(in_bounds(b.grid(), b.roots@[1]));
            assert forall|c: Coordinate, pp: usize| #[trigger] occupied_by(
                b.grid(),
                c,
                pp,
            ) implies reachable(b.grid(), b.roots@, pp, c) by {
                assert(cell(b.grid(), c) == b.squares@[c.y as int]@[c.x as int]);
                assert(false);
            }
        }
        b
    }

    /// The coordinates of one boundary row or column, in ascending order.
    pub fn get_edge(&self, direction: Direction) -> (r: Vec<Coordinate>)
        requires
            self.wf(),
        ensures
            r@ == edge_view(self.grid(), direction),
    {
        let mut r: Vec<Coordinate> = Vec::new();
        let height = self.squares.len();
        if height == 0 {
            proof {
                assert(r@ =~= edge_view(self.grid(), direction));
            }
            return r;
        }
        let width = self.squares[0].len();
        proof {
            assert(self.grid()[0].len() == width);
        }
        match direction {
            Direction::North => {
                let mut x: usize = 0;
                while x < width
                    invariant
                        x <= width,
                        r@.len() == x,
                        forall|v: int|
                            0 <= v < x ==> #[trigger] r@[v] == (Coordinate { x: v as usize, y: 0 }),
                    decreases width - x,
                {
                    r.push(Coordinate { x, y: 0 });
                    x += 1;
                }
            },
            Direction::South => {
                let mut x: usize = 0;
                while x < width
                    invariant
                        x <= width,
                        height >= 1,
                        height == self.squares@.len(),
                        r@.len() == x,
                        forall|v: int|
                            0 <= v < x ==> #[trigger] r@[v] == (Coordinate {
                                x: v as usize,
                                y: (height - 1) as usize,
                            }),
                    decreases width - x,
                {
                    r.push(Coordinate { x, y: height - 1 });
                    x += 1;
                }
            },
            Direction::West => {
                let mut y: usize = 0;
                while y < height
                    invariant
                        y <= height,
                        r@.len() == y,
                        forall|v: int|
                            0 <= v < y ==> #[trigger] r@[v] == (Coordinate { x: 0, y: v as usize }),
                    decreases height - y,
                {
                    r.push(Coordinate { x: 0, y });
                    y += 1;
                }
            },
            Direction::East => {
                let mut y: usize = 0;
                while y < height
                    invariant
                        y <= height,
                        width >= 1 ==> forall|v: int|
                            0 <= v < y ==> #[trigger] r@[v] == (Coordinate {
                                x: (width - 1) as usize,
                                y: v as usize,
                            }),
                        width == grid_width(self.grid()),
                        r@.len() == (if width >= 1 { y as int } else { 0 }),
                    decreases height - y,
                {
                    if width >= 1 {
                        r.push(Coordinate { x: width - 1, y });
                    }
                    y += 1;
                }
            },
        }
        proof {
            assert(r@ =~= edge_view(self.grid(), direction));
        }
        r
    }
}

/// The boundary squares a player must reach: the top row for north, the
/// bottom row for south, and the first or last column for west and east.
pub open spec fn edge_view(g: GridView, direction: Direction) -> Seq<Coordinate> {
    if g.len() == 0 {
        Seq::empty()
    } else {
        match direction {
            Direction::North => Seq::new(grid_width(g), |v: int| Coordinate { x: v as usize, y: 0 }),
            Direction::South => Seq::new(
                grid_width(g),
                |v: int| Coordinate { x: v as usize, y: (g.len() - 1) as usize },
            ),
            Direction::West => Seq::new(g.len(), |v: int| Coordinate { x: 0, y: v as usize }),
            Direction::East => if grid_width(g) == 0 {
                Seq::empty()
            } else {
                Seq::new(
                    g.len(),
                    |v: int| Coordinate { x: (grid_width(g) - 1) as usize, y: v as usize },
                )
            },
        }
    }
}


/// A real board's dimensions fit machine coordinates.
pub proof fn lemma_grid_bounded(b: Board)
    ensures
        b.grid().len() <= usize::MAX,
        forall|yy: int| 0 <= yy < b.grid().len() ==> (#[trigger] b.grid()[yy]).len() <= usize::MAX,
{
    assert(b.squares.len() == b.squares@.len());
    assert forall|yy: int|
        0 <= yy < b.grid().len() implies (#[trigger] b.grid()[yy]).len() <= usize::MAX by {
        assert(b.squares@[yy].len() == b.squares@[yy]@.len());
        assert(b.grid()[yy] == b.squares@[yy]@);
    }
}

} // verus!
