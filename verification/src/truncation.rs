use vstd::prelude::*;

use crate::board::{
    adjacent, cell, grid_connected, in_bounds, is_path, occupied_by, reachable, Board, Coordinate,
    GridView, Square,
};
use crate::discover::owner_at;
use crate::hand::Hands;

verus! {

/// A tile that stays after truncation: one whose square is empty or missing,
/// or whose owner can still reach it from their root.
pub open spec fn keeps(g: GridView, roots: Seq<Coordinate>, c: Coordinate) -> bool {
    match cell(g, c) {
        Some(Square::Occupied(p, _)) => reachable(g, roots, p, c),
        _ => true,
    }
}

/// The grid after truncation: every tile cut off from its owner's root is
/// reset to empty, everything else is untouched.
pub open spec fn truncate_view(g: GridView, roots: Seq<Coordinate>) -> GridView {
    Seq::new(
        g.len(),
        |y: int|
            Seq::new(
                g[y].len(),
                |x: int|
                    if keeps(g, roots, Coordinate { x: x as usize, y: y as usize }) {
                        g[y][x]
                    } else {
                        Some(Square::Empty)
                    },
            ),
    )
}

/// The letters of the first `upto` squares of row `y` that truncation cuts,
/// in column order.
pub open spec fn cut_letters_row(g: GridView, roots: Seq<Coordinate>, y: int, upto: int) -> Seq<
    char,
>
    decreases upto,
{
    if upto <= 0 {
        Seq::empty()
    } else {
        let c = Coordinate { x: (upto - 1) as usize, y: y as usize };
        cut_letters_row(g, roots, y, upto - 1) + (if crate::board::is_occupied(g, c) && !keeps(
            g,
            roots,
            c,
        ) {
            seq![crate::board::letter_at(g, c)]
        } else {
            Seq::empty()
        })
    }
}

/// The letters of every square in the first `upto_y` rows that truncation
/// cuts, in row-major order.
pub open spec fn cut_letters(g: GridView, roots: Seq<Coordinate>, upto_y: int) -> Seq<char>
    decreases upto_y,
{
    if upto_y <= 0 {
        Seq::empty()
    } else {
        cut_letters(g, roots, upto_y - 1) + cut_letters_row(
            g,
            roots,
            upto_y - 1,
            g[upto_y - 1].len() as int,
        )
    }
}

/// Every dimension of the grid fits a machine coordinate.
pub open spec fn grid_bounded(g: GridView) -> bool {
    g.len() <= usize::MAX && forall|y: int| 0 <= y < g.len() ==> (#[trigger] g[y]).len()
        <= usize::MAX
}

/// The tile at `c` is occupied, its owner has a root, and the tile connects
/// to that root.
pub open spec fn reach_ok(g: GridView, roots: Seq<Coordinate>, c: Coordinate) -> bool {
    &&& crate::board::is_occupied(g, c)
    &&& owner_at(g, c) < roots.len()
    &&& reachable(g, roots, owner_at(g, c), c)
}

/// One reachability flag per grid square.
pub open spec fn marks_view(m: Seq<Vec<bool>>) -> Seq<Seq<bool>> {
    Seq::new(m.len(), |y: int| m[y]@)
}

pub open spec fn marked(mv: Seq<Seq<bool>>, c: Coordinate) -> bool {
    c.y < mv.len() && c.x < mv[c.y as int].len() && mv[c.y as int][c.x as int]
}

pub open spec fn marks_dims(g: GridView, mv: Seq<Seq<bool>>) -> bool {
    mv.len() == g.len() && forall|y: int| 0 <= y < g.len() ==> (#[trigger] mv[y]).len() == g[
        y
    ].len()
}

/// Every marked square holds a tile that connects to its owner's root.
pub open spec fn marks_sound(g: GridView, roots: Seq<Coordinate>, mv: Seq<Seq<bool>>) -> bool {
    forall|c: Coordinate| #[trigger] marked(mv, c) ==> reach_ok(g, roots, c)
}

pub open spec fn queue_marked(mv: Seq<Seq<bool>>, q: Seq<Coordinate>) -> bool {
    forall|i: int| 0 <= i < q.len() ==> marked(mv, #[trigger] q[i])
}

pub open spec fn queue_distinct(q: Seq<Coordinate>) -> bool {
    forall|i: int, j: int| 0 <= i < j < q.len() ==> q[i] != q[j]
}

pub open spec fn in_queue(q: Seq<Coordinate>, c: Coordinate) -> bool {
    exists|i: int| 0 <= i < q.len() && q[i] == c
}

/// Except at squares still waiting in the queue, the marking is closed under
/// same-owner adjacency.
pub open spec fn closed_except(g: GridView, mv: Seq<Seq<bool>>, q: Seq<Coordinate>) -> bool {
    forall|c: Coordinate, d: Coordinate|
        #![trigger marked(mv, c), adjacent(c, d)]
        marked(mv, c) && !in_queue(q, c) && in_bounds(g, d) && adjacent(c, d) && occupied_by(
            g,
            d,
            owner_at(g, c),
        ) ==> marked(mv, d)
}

/// Roots of the first `upto` players are marked whenever they hold their
/// own player's tile.
pub open spec fn roots_seeded(
    g: GridView,
    roots: Seq<Coordinate>,
    mv: Seq<Seq<bool>>,
    upto: int,
) -> bool {
    forall|q: int|
        0 <= q < upto ==> (occupied_by(g, #[trigger] roots[q], q as usize) ==> marked(
            mv,
            roots[q],
        ))
}

/// Number of unmarked flags in one row.
pub open spec fn count_false_row(r: Seq<bool>) -> nat
    decreases r.len(),
{
    if r.len() == 0 {
        0
    } else {
        count_false_row(r.drop_last()) + if r.last() {
            0nat
        } else {
            1nat
        }
    }
}

/// Number of unmarked flags in the whole grid.
pub open spec fn count_false(m: Seq<Seq<bool>>) -> nat
    decreases m.len(),
{
    if m.len() == 0 {
        0
    } else {
        count_false(m.drop_last()) + count_false_row(m.last())
    }
}

proof fn lemma_count_false_row_update(r: Seq<bool>, x: int)
    requires
        0 <= x < r.len(),
        !r[x],
    ensures
        count_false_row(r.update(x, true)) + 1 == count_false_row(r),
    decreases r.len(),
{
    let r2 = r.update(x, true);
    if x == r.len() - 1 {
        assert(r2.drop_last() =~= r.drop_last());
    } else {
        assert(r2.drop_last() =~= r.drop_last().update(x, true));
        assert(r2.last() == r.last());
        lemma_count_false_row_update(r.drop_last(), x);
    }
}

proof fn lemma_count_false_update(m: Seq<Seq<bool>>, y: int, x: int)
    requires
        0 <= y < m.len(),
        0 <= x < m[y].len(),
        !m[y][x],
    ensures
        count_false(m.update(y, m[y].update(x, true))) + 1 == count_false(m),
    decreases m.len(),
{
    let m2 = m.update(y, m[y].update(x, true));
    if y == m.len() - 1 {
        assert(m2.drop_last() =~= m.drop_last());
        lemma_count_false_row_update(m[y], x);
        assert(m2.last() == m[y].update(x, true));
    } else {
        assert(m2.drop_last() =~= m.drop_last().update(y, m[y].update(x, true)));
        assert(m2.last() == m.last());
        lemma_count_false_update(m.drop_last(), y, x);
    }
}

/// Setting one flag marks exactly that square and unmarks nothing.
proof fn lemma_mark_update(mv0: Seq<Seq<bool>>, mv1: Seq<Seq<bool>>, t: Coordinate)
    requires
        t.y < mv0.len(),
        t.x < mv0[t.y as int].len(),
        mv1 == mv0.update(t.y as int, mv0[t.y as int].update(t.x as int, true)),
    ensures
        forall|c: Coordinate| #[trigger] marked(mv1, c) <==> (marked(mv0, c) || c == t),
        !mv0[t.y as int][t.x as int] ==> count_false(mv1) + 1 == count_false(mv0),
        mv1.len() == mv0.len(),
        forall|y: int| 0 <= y < mv0.len() ==> (#[trigger] mv1[y]).len() == mv0[y].len(),
{
    assert forall|c: Coordinate| #[trigger] marked(mv1, c) <==> (marked(mv0, c) || c == t) by {
        if c.y as int == t.y as int && c.x as int == t.x as int {
            assert(c == t);
            assert(marked(mv1, t));
        } else if c.y as int == t.y as int {
            if c.y < mv1.len() && c.x < mv1[c.y as int].len() {
                assert(mv1[c.y as int][c.x as int] == mv0[c.y as int][c.x as int]);
            }
            if c.y < mv0.len() && c.x < mv0[c.y as int].len() {
                assert(mv1[c.y as int][c.x as int] == mv0[c.y as int][c.x as int]);
            }
        } else {
            assert(c.y < mv1.len() ==> mv1[c.y as int] == mv0[c.y as int]);
        }
    }
    if !mv0[t.y as int][t.x as int] {
        lemma_count_false_update(mv0, t.y as int, t.x as int);
    }
}

/// With an empty queue the marking is closed, so it covers the far end of
/// every same-owner path that starts at a marked square.
proof fn lemma_closed_covers(
    g: GridView,
    mv: Seq<Seq<bool>>,
    p: usize,
    path: Seq<Coordinate>,
)
    requires
        is_path(g, p, path),
        marked(mv, path.first()),
        closed_except(g, mv, Seq::<Coordinate>::empty()),
    ensures
        marked(mv, path.last()),
    decreases path.len(),
{
    if path.len() > 1 {
        let c0 = path[0];
        let c1 = path[1];
        assert(occupied_by(g, c0, p));
        assert(occupied_by(g, c1, p));
        assert(adjacent(c0, c1));
        assert(owner_at(g, c0) == p);
        assert(in_bounds(g, c1));
        assert(!in_queue(Seq::<Coordinate>::empty(), c0));
        assert(marked(mv, c1));
        let rest = path.skip(1);
        assert forall|i: int| 0 <= i < rest.len() implies occupied_by(g, #[trigger] rest[i], p) by {
            assert(rest[i] == path[i + 1]);
        }
        assert forall|i: int| 0 <= i < rest.len() - 1 implies adjacent(
            #[trigger] rest[i],
            rest[i + 1],
        ) by {
            assert(rest[i] == path[i + 1]);
            assert(rest[i + 1] == path[i + 2]);
        }
        assert(is_path(g, p, rest));
        assert(rest.first() == c1);
        assert(rest.last() == path.last());
        lemma_closed_covers(g, mv, p, rest);
    }
}

/// Every square along a root-anchored path is itself reachable.
pub proof fn lemma_path_prefix_reachable(
    g: GridView,
    roots: Seq<Coordinate>,
    p: usize,
    path: Seq<Coordinate>,
    i: int,
)
    requires
        is_path(g, p, path),
        path.first() == roots[p as int],
        p < roots.len(),
        0 <= i < path.len(),
    ensures
        reachable(g, roots, p, path[i]),
{
    let pre = path.take(i + 1);
    assert forall|k: int| 0 <= k < pre.len() implies occupied_by(g, #[trigger] pre[k], p) by {
        assert(pre[k] == path[k]);
    }
    assert forall|k: int| 0 <= k < pre.len() - 1 implies adjacent(
        #[trigger] pre[k],
        pre[k + 1],
    ) by {
        assert(pre[k] == path[k]);
        assert(pre[k + 1] == path[k + 1]);
    }
    assert(is_path(g, p, pre));
    assert(pre.first() == path[0]);
    assert(pre.last() == path[i]);
}

/// Truncation leaves every surviving tile connected to its owner's root:
/// the connectivity invariant holds of the truncated grid.
pub proof fn lemma_truncate_view_connected(g: GridView, roots: Seq<Coordinate>)
    ensures
        grid_connected(truncate_view(g, roots), roots),
{
    let t = truncate_view(g, roots);
    assert forall|c: Coordinate, p: usize| #[trigger] occupied_by(t, c, p) implies reachable(
        t,
        roots,
        p,
        c,
    ) by {
        assert(cell(t, c) == cell(g, c));
        assert(keeps(g, roots, c));
        assert(reachable(g, roots, p, c));
        let w = choose|w: Seq<Coordinate>|
            is_path(g, p, w) && w.first() == roots[p as int] && w.last() == c;
        assert forall|i: int| 0 <= i < w.len() implies occupied_by(t, #[trigger] w[i], p) by {
            lemma_path_prefix_reachable(g, roots, p, w, i);
            assert(occupied_by(g, w[i], p));
            assert(keeps(g, roots, w[i]));
            assert(cell(t, w[i]) == cell(g, w[i]));
        }
        assert(is_path(t, p, w));
        assert(reachable(t, roots, p, c));
    }
}

/// Truncating a grid whose tiles are all connected changes nothing.
pub proof fn lemma_truncate_view_noop(g: GridView, roots: Seq<Coordinate>)
    requires
        grid_connected(g, roots),
        grid_bounded(g),
    ensures
        truncate_view(g, roots) == g,
{
    let t = truncate_view(g, roots);
    assert forall|y: int| 0 <= y < g.len() implies #[trigger] t[y] =~= g[y] by {
        assert forall|x: int| 0 <= x < g[y].len() implies #[trigger] t[y][x] == g[y][x] by {
            let c = Coordinate { x: x as usize, y: y as usize };
            match cell(g, c) {
                Some(Square::Occupied(p, _)) => {
                    assert(occupied_by(g, c, p));
                    assert(keeps(g, roots, c));
                },
                _ => {},
            }
        }
    }
    assert(t =~~= g);
}

/// Truncation is idempotent: a second pass finds nothing more to clear.
pub proof fn lemma_truncation_idempotent(g: GridView, roots: Seq<Coordinate>)
    requires
        grid_bounded(g),
    ensures
        truncate_view(truncate_view(g, roots), roots) == truncate_view(g, roots),
{
    lemma_truncate_view_connected(g, roots);
    assert(grid_bounded(truncate_view(g, roots)));
    lemma_truncate_view_noop(truncate_view(g, roots), roots);
}


/// Pushing onto the queue adds exactly one member.
proof fn lemma_in_queue_push(q: Seq<Coordinate>, nd: Coordinate, z: Coordinate)
    ensures
        in_queue(q.push(nd), z) <==> (in_queue(q, z) || z == nd),
{
    if in_queue(q, z) {
        let i = choose|i: int| 0 <= i < q.len() && q[i] == z;
        assert(q.push(nd)[i] == z);
    }
    assert(q.push(nd)[q.len() as int] == nd);
    if in_queue(q.push(nd), z) {
        let i = choose|i: int| 0 <= i < q.push(nd).len() && q.push(nd)[i] == z;
        if i < q.len() {
            assert(q[i] == z);
        }
    }
}

impl Board {
    /// Marks `nd` and queues it when it holds a tile of player `p` that has
    /// not been visited yet.
    fn visit_neighbour(
        &self,
        marks: &mut Vec<Vec<bool>>,
        queue: &mut Vec<Coordinate>,
        p: usize,
        c: Coordinate,
        nd: Coordinate,
    )
        requires
            self.wf(),
            adjacent(c, nd),
            p < self.roots@.len(),
            reachable(self.grid(), self.roots@, p, c),
            marks_dims(self.grid(), marks_view(old(marks)@)),
            marks_sound(self.grid(), self.roots@, marks_view(old(marks)@)),
            queue_marked(marks_view(old(marks)@), old(queue)@),
            queue_distinct(old(queue)@),
        ensures
            marks_dims(self.grid(), marks_view(final(marks)@)),
            marks_sound(self.grid(), self.roots@, marks_view(final(marks)@)),
            queue_marked(marks_view(final(marks)@), final(queue)@),
            queue_distinct(final(queue)@),
            forall|cc: Coordinate|
                #[trigger] marked(marks_view(old(marks)@), cc) ==> marked(
                    marks_view(final(marks)@),
                    cc,
                ),
            occupied_by(self.grid(), nd, p) ==> marked(marks_view(final(marks)@), nd),
            (occupied_by(self.grid(), nd, p) && !marked(marks_view(old(marks)@), nd)) ==> {
                &&& forall|cc: Coordinate|
                    #[trigger] marked(marks_view(final(marks)@), cc) <==> (marked(
                        marks_view(old(marks)@),
                        cc,
                    ) || cc == nd)
                &&& final(queue)@ == old(queue)@.push(nd)
                &&& count_false(marks_view(final(marks)@)) + 1 == count_false(
                    marks_view(old(marks)@),
                )
            },
            !(occupied_by(self.grid(), nd, p) && !marked(marks_view(old(marks)@), nd))
                ==> final(marks)@ == old(marks)@ && final(queue)@ == old(queue)@,
            forall|z: Coordinate|
                #[trigger] in_queue(old(queue)@, z) ==> in_queue(final(queue)@, z),
            forall|z: Coordinate|
                #[trigger] in_queue(final(queue)@, z) ==> in_queue(old(queue)@, z) || z == nd,
    {
        let ghost g = self.grid();
        let ghost roots_s = self.roots@;
        let ghost mv0 = marks_view(marks@);
        proof {
            assert(Coordinate { x: nd.x, y: nd.y } == nd);
        }
        if self.owned(nd.x, nd.y, p) {
            proof {
                assert(occupied_by(g, nd, p));
                assert(in_bounds(g, nd));
                assert(marks_view(marks@)[nd.y as int].len() == g[nd.y as int].len());
            }
            let cur = marks[nd.y][nd.x];
            if !cur {
                let ghost q0 = queue@;
                marks[nd.y].set(nd.x, true);
                queue.push(nd);
                proof {
                    let mv1 = marks_view(marks@);
                    assert(mv1 =~~= mv0.update(
                        nd.y as int,
                        mv0[nd.y as int].update(nd.x as int, true),
                    ));
                    lemma_mark_update(mv0, mv1, nd);
                    let w = choose|w: Seq<Coordinate>|
                        is_path(g, p, w) && w.first() == roots_s[p as int] && w.last() == c;
                    let w2 = w.push(nd);
                    assert forall|i: int| 0 <= i < w2.len() implies occupied_by(
                        g,
                        #[trigger] w2[i],
                        p,
                    ) by {
                        if i < w.len() {
                            assert(w2[i] == w[i]);
                        } else {
                            assert(w2[i] == nd);
                        }
                    }
                    assert forall|i: int| 0 <= i < w2.len() - 1 implies adjacent(
                        #[trigger] w2[i],
                        w2[i + 1],
                    ) by {
                        if i < w.len() - 1 {
                            assert(w2[i] == w[i]);
                            assert(w2[i + 1] == w[i + 1]);
                        } else {
                            assert(w2[i] == w.last());
                            assert(w2[i + 1] == nd);
                        }
                    }
                    assert(is_path(g, p, w2));
                    assert(w2.first() == roots_s[p as int]);
                    assert(w2.last() == nd);
                    assert(reachable(g, roots_s, p, nd));
                    assert(owner_at(g, nd) == p);
                    assert(reach_ok(g, roots_s, nd));
                    assert forall|cc: Coordinate| #[trigger] marked(mv1, cc) implies reach_ok(
                        g,
                        roots_s,
                        cc,
                    ) by {
                        if cc != nd {
                            assert(marked(mv0, cc));
                        }
                    }
                    assert forall|i: int| 0 <= i < queue@.len() implies marked(
                        mv1,
                        #[trigger] queue@[i],
                    ) by {
                        if i < q0.len() {
                            assert(queue@[i] == q0[i]);
                            assert(marked(mv0, q0[i]));
                        } else {
                            assert(queue@[i] == nd);
                        }
                    }
                    assert forall|i: int, j: int| 0 <= i < j < queue@.len() implies queue@[i]
                        != queue@[j] by {
                        if j < q0.len() {
                            assert(queue@[i] == q0[i] && queue@[j] == q0[j]);
                        } else {
                            assert(queue@[j] == nd);
                            assert(queue@[i] == q0[i]);
                            assert(marked(mv0, q0[i]));
                        }
                    }
                    assert forall|z: Coordinate| #[trigger] in_queue(q0, z) implies in_queue(
                        queue@,
                        z,
                    ) by {
                        lemma_in_queue_push(q0, nd, z);
                    }
                    assert forall|z: Coordinate| #[trigger] in_queue(queue@, z) implies (in_queue(
                        q0,
                        z,
                    ) || z == nd) by {
                        lemma_in_queue_push(q0, nd, z);
                    }
                }
            } else {
                proof {
                    assert(marked(mv0, nd));
                }
            }
        } else {
            proof {
                assert(!occupied_by(g, nd, p));
            }
        }
    }
}


impl Board {
    /// Flags every square whose tile still connects to its owner's root,
    /// walking outward from each root square.
    pub(crate) fn reach_marks(&self) -> (m: Vec<Vec<bool>>)
        requires
            self.wf(),
        ensures
            marks_dims(self.grid(), marks_view(m@)),
            forall|c: Coordinate|
                in_bounds(self.grid(), c) ==> (#[trigger] marked(marks_view(m@), c) <==> reach_ok(
                    self.grid(),
                    self.roots@,
                    c,
                )),
    {
        let ghost g = self.grid();
        let ghost roots_s = self.roots@;
        let height = self.squares.len();
        let mut marks: Vec<Vec<bool>> = Vec::new();
        let mut y: usize = 0;
        while y < height
            invariant
                y <= height,
                height == self.squares@.len(),
                g == self.grid(),
                marks@.len() == y,
                forall|u: int| 0 <= u < y ==> (#[trigger] marks@[u])@.len() == g[u].len(),
                forall|u: int, v: int|
                    0 <= u < y && 0 <= v < marks@[u]@.len() ==> !(#[trigger] marks@[u]@[v]),
            decreases height - y,
        {
            let w = self.squares[y].len();
            let mut row: Vec<bool> = Vec::new();
            let mut xx: usize = 0;
            while xx < w
                invariant
                    xx <= w,
                    row@.len() == xx,
                    forall|v: int| 0 <= v < xx ==> !(#[trigger] row@[v]),
                decreases w - xx,
            {
                row.push(false);
                xx += 1;
            }
            proof {
                assert(g[y as int].len() == self.squares@[y as int]@.len());
            }
            marks.push(row);
            y += 1;
        }
        proof {
            assert(marks_dims(g, marks_view(marks@)));
            assert forall|cc: Coordinate| !marked(marks_view(marks@), cc) by {
                if cc.y < marks@.len() && cc.x < marks@[cc.y as int]@.len() {
                    assert(!marks@[cc.y as int]@[cc.x as int]);
                }
            }
        }

        // Seed the queue with every root that holds its own player's tile.
        let mut queue: Vec<Coordinate> = Vec::new();
        let mut pl: usize = 0;
        while pl < self.roots.len()
            invariant
                pl <= roots_s.len(),
                g == self.grid(),
                roots_s == self.roots@,
                self.wf(),
                marks_dims(g, marks_view(marks@)),
                marks_sound(g, roots_s, marks_view(marks@)),
                queue_marked(marks_view(marks@), queue@),
                queue_distinct(queue@),
                forall|cc: Coordinate|
                    #[trigger] marked(marks_view(marks@), cc) ==> in_queue(queue@, cc),
                roots_seeded(g, roots_s, marks_view(marks@), pl as int),
            decreases roots_s.len() - pl,
        {
            let rc = self.roots[pl];
            proof {
                assert(in_bounds(g, roots_s[pl as int]));
            }
            if self.owned(rc.x, rc.y, pl) {
                proof {
                    assert(Coordinate { x: rc.x, y: rc.y } == rc);
                    assert(occupied_by(g, rc, pl));
                    assert(marks_view(marks@)[rc.y as int].len() == g[rc.y as int].len());
                }
                let cur = marks[rc.y][rc.x];
                if !cur {
                    let ghost mv0 = marks_view(marks@);
                    let ghost q0 = queue@;
                    marks[rc.y].set(rc.x, true);
                    queue.push(rc);
                    proof {
                        let mv1 = marks_view(marks@);
                        assert(mv1 =~~= mv0.update(
                            rc.y as int,
                            mv0[rc.y as int].update(rc.x as int, true),
                        ));
                        lemma_mark_update(mv0, mv1, rc);
                        let w = seq![rc];
                        assert(w.len() == 1);
                        assert(w[0] == rc);
                        assert(is_path(g, pl, w));
                        assert(w.first() == roots_s[pl as int]);
                        assert(w.last() == rc);
                        assert(reachable(g, roots_s, pl, rc));
                        assert(owner_at(g, rc) == pl);
                        assert(reach_ok(g, roots_s, rc));
                        assert forall|cc: Coordinate| #[trigger] marked(mv1, cc) implies reach_ok(
                            g,
                            roots_s,
                            cc,
                        ) by {
                            if cc != rc {
                                assert(marked(mv0, cc));
                            }
                        }
                        assert forall|i: int| 0 <= i < queue@.len() implies marked(
                            mv1,
                            #[trigger] queue@[i],
                        ) by {
                            if i < q0.len() {
                                assert(queue@[i] == q0[i]);
                                assert(marked(mv0, q0[i]));
                            } else {
                                assert(queue@[i] == rc);
                            }
                        }
                        assert forall|i: int, j: int| 0 <= i < j < queue@.len() implies queue@[i]
                            != queue@[j] by {
                            if j < q0.len() {
                                assert(queue@[i] == q0[i] && queue@[j] == q0[j]);
                            } else {
                                assert(queue@[j] == rc);
                                assert(queue@[i] == q0[i]);
                                assert(marked(mv0, q0[i]));
                            }
                        }
                        assert forall|cc: Coordinate| #[trigger] marked(mv1, cc) implies in_queue(
                            queue@,
                            cc,
                        ) by {
                            if cc == rc {
                                assert(queue@[q0.len() as int] == rc);
                            } else {
                                assert(marked(mv0, cc));
                                assert(in_queue(q0, cc));
                                let i = choose|i: int| 0 <= i < q0.len() && q0[i] == cc;
                                assert(queue@[i] == cc);
                            }
                        }
                    }
                }
            }
            pl += 1;
        }
        proof {
            assert forall|cc: Coordinate, dd: Coordinate|
                #![trigger marked(marks_view(marks@), cc), adjacent(cc, dd)]
                (marked(marks_view(marks@), cc) && !in_queue(queue@, cc) && in_bounds(g, dd)
                    && adjacent(cc, dd) && occupied_by(g, dd, owner_at(g, cc))) implies marked(
                marks_view(marks@),
                dd,
            ) by {
                assert(in_queue(queue@, cc));
            }
            assert(closed_except(g, marks_view(marks@), queue@));
        }

        // Walk outward while anything is waiting in the queue.
        while queue.len() > 0
            invariant
                g == self.grid(),
                roots_s == self.roots@,
                self.wf(),
                marks_dims(g, marks_view(marks@)),
                marks_sound(g, roots_s, marks_view(marks@)),
                queue_marked(marks_view(marks@), queue@),
                queue_distinct(queue@),
                closed_except(g, marks_view(marks@), queue@),
                roots_seeded(g, roots_s, marks_view(marks@), roots_s.len() as int),
            decreases count_false(marks_view(marks@)), queue@.len(),
        {
            let ghost mv_en = marks_view(marks@);
            let ghost q_en = queue@;
            let c = match queue.pop() {
                Some(cc) => cc,
                None => {
                    proof {
                        assert(false);
                    }
                    Coordinate { x: 0, y: 0 }
                },
            };
            proof {
                assert(queue@ == q_en.drop_last());
                assert(q_en[q_en.len() - 1] == c);
                assert(marked(mv_en, c));
                assert(reach_ok(g, roots_s, c));
                assert(marks_view(marks@)[c.y as int].len() == g[c.y as int].len());
                assert(c.y < self.squares@.len());
                assert(c.x < self.squares@[c.y as int]@.len());
                assert(cell(g, c) == self.squares@[c.y as int]@[c.x as int]);
            }
            let p = match self.squares[c.y][c.x] {
                Some(Square::Occupied(q, _)) => q,
                _ => {
                    proof {
                        assert(false);
                    }
                    0
                },
            };
            proof {
                assert(p == owner_at(g, c));
                assert(p < roots_s.len());
                assert(reachable(g, roots_s, p, c));
            }
            let ghost q_a = queue@;
            if c.y >= 1 {
                self.visit_neighbour(
                    &mut marks,
                    &mut queue,
                    p,
                    c,
                    Coordinate { x: c.x, y: c.y - 1 },
                );
            }
            let ghost mv_b = marks_view(marks@);
            let ghost q_b = queue@;
            if c.y < usize::MAX {
                self.visit_neighbour(
                    &mut marks,
                    &mut queue,
                    p,
                    c,
                    Coordinate { x: c.x, y: c.y + 1 },
                );
            }
            let ghost mv_c2 = marks_view(marks@);
            let ghost q_c2 = queue@;
            if c.x < usize::MAX {
                self.visit_neighbour(
                    &mut marks,
                    &mut queue,
                    p,
                    c,
                    Coordinate { x: c.x + 1, y: c.y },
                );
            }
            let ghost mv_d = marks_view(marks@);
            let ghost q_d = queue@;
            if c.x >= 1 {
                self.visit_neighbour(
                    &mut marks,
                    &mut queue,
                    p,
                    c,
                    Coordinate { x: c.x - 1, y: c.y },
                );
            }
            let ghost mv_e = marks_view(marks@);
            let ghost q_e = queue@;
            proof {
                // Marks only grow across the four visits.
                assert forall|cc: Coordinate| #[trigger] marked(mv_en, cc) implies marked(
                    mv_e,
                    cc,
                ) by {
                    assert(marked(mv_b, cc));
                    assert(marked(mv_c2, cc));
                    assert(marked(mv_d, cc));
                }
                assert forall|cc: Coordinate| #[trigger] marked(mv_b, cc) implies marked(
                    mv_e,
                    cc,
                ) by {
                    assert(marked(mv_c2, cc));
                    assert(marked(mv_d, cc));
                }
                assert forall|cc: Coordinate| #[trigger] marked(mv_c2, cc) implies marked(
                    mv_e,
                    cc,
                ) by {
                    assert(marked(mv_d, cc));
                }
                assert forall|cc: Coordinate| #[trigger] marked(mv_d, cc) implies marked(
                    mv_e,
                    cc,
                ) by {}
                // Queue membership only grows across the four visits.
                assert forall|z: Coordinate| #[trigger] in_queue(q_a, z) implies in_queue(
                    q_e,
                    z,
                ) by {
                    assert(in_queue(q_b, z));
                    assert(in_queue(q_c2, z));
                    assert(in_queue(q_d, z));
                }
                // Anything marked during this iteration is waiting in the queue.
                assert forall|cc: Coordinate|
                    #[trigger] marked(mv_e, cc) && !marked(mv_en, cc) implies in_queue(
                    q_e,
                    cc,
                ) by {
                    if marked(mv_b, cc) {
                        assert(c.y >= 1);
                        let nd = Coordinate { x: c.x, y: (c.y - 1) as usize };
                        assert(cc == nd);
                        assert(q_b == q_a.push(nd));
                        assert(q_b[q_a.len() as int] == nd);
                        assert(in_queue(q_b, cc));
                        assert(in_queue(q_c2, cc));
                        assert(in_queue(q_d, cc));
                    } else if marked(mv_c2, cc) {
                        assert(c.y < usize::MAX);
                        let nd = Coordinate { x: c.x, y: (c.y + 1) as usize };
                        assert(cc == nd);
                        assert(q_c2 == q_b.push(nd));
                        assert(q_c2[q_b.len() as int] == nd);
                        assert(in_queue(q_c2, cc));
                        assert(in_queue(q_d, cc));
                    } else if marked(mv_d, cc) {
                        assert(c.x < usize::MAX);
                        let nd = Coordinate { x: (c.x + 1) as usize, y: c.y };
                        assert(cc == nd);
                        assert(q_d == q_c2.push(nd));
                        assert(q_d[q_c2.len() as int] == nd);
                        assert(in_queue(q_d, cc));
                    } else {
                        assert(c.x >= 1);
                        let nd = Coordinate { x: (c.x - 1) as usize, y: c.y };
                        assert(cc == nd);
                        assert(q_e == q_d.push(nd));
                        assert(q_e[q_d.len() as int] == nd);
                    }
                }
                // The closure property holds again at the end of the iteration.
                assert forall|cc: Coordinate, dd: Coordinate|
                    #![trigger marked(mv_e, cc), adjacent(cc, dd)]
                    (marked(mv_e, cc) && !in_queue(q_e, cc) && in_bounds(g, dd) && adjacent(cc, dd)
                        && occupied_by(g, dd, owner_at(g, cc))) implies marked(mv_e, dd) by {
                    if marked(mv_en, cc) {
                        if cc == c {
                            assert(owner_at(g, cc) == p);
                            if dd.x == c.x && dd.y + 1 == c.y {
                                assert(c.y >= 1);
                                assert(dd == Coordinate { x: c.x, y: (c.y - 1) as usize });
                                assert(marked(mv_b, dd));
                            } else if dd.x == c.x && c.y + 1 == dd.y {
                                assert(c.y < usize::MAX);
                                assert(dd == Coordinate { x: c.x, y: (c.y + 1) as usize });
                                assert(marked(mv_c2, dd));
                            } else if dd.y == c.y && c.x + 1 == dd.x {
                                assert(c.x < usize::MAX);
                                assert(dd == Coordinate { x: (c.x + 1) as usize, y: c.y });
                                assert(marked(mv_d, dd));
                            } else {
                                assert(dd.y == c.y && dd.x + 1 == c.x);
                                assert(c.x >= 1);
                                assert(dd == Coordinate { x: (c.x - 1) as usize, y: c.y });
                                assert(marked(mv_e, dd));
                            }
                        } else {
                            if in_queue(q_en, cc) {
                                let i = choose|i: int| 0 <= i < q_en.len() && q_en[i] == cc;
                                assert(i < q_en.len() - 1);
                                assert(q_a[i] == cc);
                                assert(in_queue(q_a, cc));
                                assert(in_queue(q_e, cc));
                                assert(false);
                            } else {
                                assert(marked(mv_en, dd));
                            }
                        }
                    } else {
                        assert(in_queue(q_e, cc));
                        assert(false);
                    }
                }
                // Termination: either a new square was marked, or the queue shrank.
                assert(count_false(mv_b) <= count_false(mv_en));
                assert(count_false(mv_c2) <= count_false(mv_b));
                assert(count_false(mv_d) <= count_false(mv_c2));
                assert(count_false(mv_e) <= count_false(mv_d));
                if count_false(mv_e) == count_false(mv_en) {
                    assert(q_b == q_a);
                    assert(q_c2 == q_b);
                    assert(q_d == q_c2);
                    assert(q_e == q_d);
                    assert(q_e.len() < q_en.len());
                }
            }
        }
        proof {
            let mv = marks_view(marks@);
            assert(queue@ =~= Seq::<Coordinate>::empty());
            assert(closed_except(g, mv, Seq::<Coordinate>::empty()));
            assert forall|c: Coordinate|
                in_bounds(g, c) implies (#[trigger] marked(mv, c) <==> reach_ok(
                g,
                roots_s,
                c,
            )) by {
                if reach_ok(g, roots_s, c) {
                    let pown = owner_at(g, c);
                    let w = choose|w: Seq<Coordinate>|
                        is_path(g, pown, w) && w.first() == roots_s[pown as int] && w.last() == c;
                    assert(occupied_by(g, w[0], pown));
                    assert(occupied_by(g, roots_s[pown as int], pown));
                    assert(marked(mv, roots_s[pown as int]));
                    lemma_closed_covers(g, mv, pown, w);
                }
            }
        }
        marks
    }
}


impl Board {
    /// Clears every tile that no longer connects to its owner's root and
    /// returns each cleared letter to the bag. This restores the grid
    /// invariant after battle removals.
    pub fn truncate(&mut self, hands: &mut Hands)
        requires
            old(self).wf(),
        ensures
            final(self).grid() == truncate_view(old(self).grid(), old(self).roots@),
            final(self).roots@ == old(self).roots@,
            final(self).orientations@ == old(self).orientations@,
            final(self).wf(),
            final(self).connected(),
            final(hands).hands == old(hands).hands,
            old(hands).bag@.is_prefix_of(final(hands).bag@),
            final(hands).bag@ == old(hands).bag@ + cut_letters(
                old(self).grid(),
                old(self).roots@,
                old(self).grid().len() as int,
            ),
    {
        let ghost g0 = self.grid();
        let ghost roots_s = self.roots@;
        let ghost orients0 = self.orientations@;
        let ghost tv = truncate_view(g0, roots_s);
        let marks = self.reach_marks();
        let height = self.squares.len();
        let mut y: usize = 0;
        while y < height
            invariant
                y <= height,
                height == g0.len(),
                self.roots@ == roots_s,
                self.orientations@ == orients0,
                self.squares@.len() == g0.len(),
                forall|yy: int|
                    0 <= yy < g0.len() ==> (#[trigger] self.grid()[yy]).len() == g0[yy].len(),
                marks_dims(g0, marks_view(marks@)),
                forall|cc: Coordinate|
                    in_bounds(g0, cc) ==> (#[trigger] marked(marks_view(marks@), cc) <==> reach_ok(
                        g0,
                        roots_s,
                        cc,
                    )),
                tv == truncate_view(g0, roots_s),
                forall|yy: int, xx: int|
                    0 <= yy < g0.len() && 0 <= xx < g0[yy].len() ==> #[trigger] self.grid(
                    )[yy][xx] == (if yy < y {
                        tv[yy][xx]
                    } else {
                        g0[yy][xx]
                    }),
                hands.hands == old(hands).hands,
                old(hands).bag@.is_prefix_of(hands.bag@),
                hands.bag@ == old(hands).bag@ + cut_letters(g0, roots_s, y as int),
            decreases height - y,
        {
            let wdt = self.squares[y].len();
            proof {
                assert(self.grid()[y as int].len() == g0[y as int].len());
            }
            let mut x: usize = 0;
            while x < wdt
                invariant
                    x <= wdt,
                    y < height,
                    wdt == g0[y as int].len(),
                    height == g0.len(),
                    self.roots@ == roots_s,
                    self.orientations@ == orients0,
                    self.squares@.len() == g0.len(),
                    forall|yy: int|
                        0 <= yy < g0.len() ==> (#[trigger] self.grid()[yy]).len() == g0[yy].len(),
                    marks_dims(g0, marks_view(marks@)),
                    forall|cc: Coordinate|
                        in_bounds(g0, cc) ==> (#[trigger] marked(marks_view(marks@), cc)
                            <==> reach_ok(g0, roots_s, cc)),
                    tv == truncate_view(g0, roots_s),
                    forall|yy: int, xx: int|
                        0 <= yy < g0.len() && 0 <= xx < g0[yy].len() ==> #[trigger] self.grid(
                        )[yy][xx] == (if yy < y || (yy == y && xx < x) {
                            tv[yy][xx]
                        } else {
                            g0[yy][xx]
                        }),
                    hands.hands == old(hands).hands,
                    old(hands).bag@.is_prefix_of(hands.bag@),
                    hands.bag@ == old(hands).bag@ + cut_letters(g0, roots_s, y as int)
                        + cut_letters_row(g0, roots_s, y as int, x as int),
                decreases wdt - x,
            {
                let ghost cme = Coordinate { x, y };
                proof {
                    assert(in_bounds(g0, cme));
                    assert(self.grid()[y as int][x as int] == g0[y as int][x as int]);
                    assert(cell(g0, cme) == g0[y as int][x as int]);
                }
                match self.squares[y][x] {
                    Some(Square::Occupied(pp, ll)) => {
                        proof {
                            assert(marks_view(marks@)[y as int].len() == g0[y as int].len());
                        }
                        let mk = marks[y][x];
                        proof {
                            assert(mk == marked(marks_view(marks@), cme));
                            assert(owner_at(g0, cme) == pp);
                        }
                        if !mk {
                            let ghost bag_prev = hands.bag@;
                            proof {
                                assert(ll == crate::board::letter_at(g0, cme));
                                assert(!reach_ok(g0, roots_s, cme));
                                assert(!keeps(g0, roots_s, cme));
                            }
                            hands.return_tile(ll);
                            proof {
                                assert(old(hands).bag@ =~= hands.bag@.subrange(
                                    0,
                                    old(hands).bag@.len() as int,
                                ));
                                assert(cut_letters_row(g0, roots_s, y as int, x + 1)
                                    =~= cut_letters_row(g0, roots_s, y as int, x as int) + seq![
                                    ll
                                ]);
                                assert(hands.bag@ =~= old(hands).bag@ + cut_letters(
                                    g0,
                                    roots_s,
                                    y as int,
                                ) + cut_letters_row(g0, roots_s, y as int, x + 1));
                            }
                            let ghost gprev = self.grid();
                            self.squares[y].set(x, Some(Square::Empty));
                            proof {
                                assert(!reach_ok(g0, roots_s, cme));
                                assert(!keeps(g0, roots_s, cme));
                                assert(tv[y as int][x as int] == Some(Square::Empty));
                                assert(self.grid()[y as int][x as int] == Some(Square::Empty));
                                assert forall|yy: int|
                                    0 <= yy < g0.len() implies (#[trigger] self.grid()[yy]).len()
                                    == g0[yy].len() by {
                                    if yy == y as int {
                                        assert(self.squares@[yy]@.len() == gprev[yy].len());
                                    } else {
                                        assert(self.grid()[yy] == gprev[yy]);
                                    }
                                }
                                assert forall|yy: int, xx: int|
                                    0 <= yy < g0.len() && 0 <= xx < g0[yy].len() && !(yy == y && xx
                                        == x) implies #[trigger] self.grid()[yy][xx]
                                    == gprev[yy][xx] by {
                                    if yy == y {
                                        assert(self.squares@[yy]@ =~= gprev[yy].update(
                                            x as int,
                                            Some(Square::Empty),
                                        ));
                                    } else {
                                        assert(self.grid()[yy] == gprev[yy]);
                                    }
                                }
                            }
                        } else {
                            proof {
                                assert(reach_ok(g0, roots_s, cme));
                                assert(keeps(g0, roots_s, cme));
                                assert(tv[y as int][x as int] == g0[y as int][x as int]);
                                assert(cut_letters_row(g0, roots_s, y as int, x + 1)
                                    =~= cut_letters_row(g0, roots_s, y as int, x as int));
                            }
                        }
                    },
                    _ => {
                        proof {
                            assert(keeps(g0, roots_s, cme));
                            assert(tv[y as int][x as int] == g0[y as int][x as int]);
                            assert(!crate::board::is_occupied(g0, cme));
                            assert(cut_letters_row(g0, roots_s, y as int, x + 1)
                                =~= cut_letters_row(g0, roots_s, y as int, x as int));
                        }
                    },
                }
                x += 1;
            }
            proof {
                assert(cut_letters(g0, roots_s, y + 1) =~= cut_letters(g0, roots_s, y as int)
                    + cut_letters_row(g0, roots_s, y as int, g0[y as int].len() as int));
                assert(hands.bag@ =~= old(hands).bag@ + cut_letters(g0, roots_s, y + 1));
            }
            y += 1;
        }
        proof {
            assert(self.grid() =~~= tv);
            lemma_truncate_view_connected(g0, roots_s);
            assert(grid_connected(self.grid(), roots_s));
            assert(crate::board::grid_rect(self.grid()));
            assert forall|pq: int| 0 <= pq < roots_s.len() implies in_bounds(
                self.grid(),
                #[trigger] roots_s[pq],
            ) by {
                assert(in_bounds(g0, roots_s[pq]));
                assert(self.grid()[roots_s[pq].y as int].len() == g0[roots_s[pq].y as int].len());
            }
        }
    }
}

} // verus!
