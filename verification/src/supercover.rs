use vstd::prelude::*;

use crate::geometry::Point;

verus! {

/// The sign of `v`: `1`, `-1` or `0`.
pub open spec fn sign(v: int) -> int {
    if v > 0 {
        1
    } else if v < 0 {
        -1
    } else {
        0
    }
}

/// The absolute value of `v`.
pub open spec fn abs(v: int) -> int {
    if v < 0 {
        -v
    } else {
        v
    }
}

/// The quantity whose sign picks the next move of the walk once `ix` of the
/// `nx` horizontal and `iy` of the `ny` vertical unit moves have been made:
/// it compares where the segment crosses the next column boundary with where
/// it crosses the next row boundary.
pub open spec fn decision(nx: int, ny: int, ix: int, iy: int) -> int {
    (1 + 2 * ix) * ny - (1 + 2 * iy) * nx
}

/// The cells that a supercover walk enters, in order, starting from `(x, y)`
/// (which is not listed) with `rx` horizontal and `ry` vertical unit moves
/// still to make out of `nx` and `ny` in all. Horizontal moves go by `sx`,
/// vertical ones by `sy`. Where the segment passes exactly through a cell
/// corner the walk moves diagonally, spending one move of each kind.
pub open spec fn walk(
    nx: int,
    ny: int,
    sx: int,
    sy: int,
    rx: nat,
    ry: nat,
    x: int,
    y: int,
) -> Seq<(int, int)>
    decreases rx + ry,
{
    if rx == 0 && ry == 0 {
        seq![]
    } else if rx == 0 {
        seq![(x, y + sy)] + walk(nx, ny, sx, sy, rx, (ry - 1) as nat, x, y + sy)
    } else if ry == 0 {
        seq![(x + sx, y)] + walk(nx, ny, sx, sy, (rx - 1) as nat, ry, x + sx, y)
    } else {
        let d = decision(nx, ny, nx - rx, ny - ry);
        if d == 0 {
            seq![(x + sx, y + sy)] + walk(
                nx,
                ny,
                sx,
                sy,
                (rx - 1) as nat,
                (ry - 1) as nat,
                x + sx,
                y + sy,
            )
        } else if d < 0 {
            seq![(x + sx, y)] + walk(nx, ny, sx, sy, (rx - 1) as nat, ry, x + sx, y)
        } else {
            seq![(x, y + sy)] + walk(nx, ny, sx, sy, rx, (ry - 1) as nat, x, y + sy)
        }
    }
}

/// The cells after `p0` that the supercover line from `p0` to `p1` passes
/// through, in the order in which a walk from `p0` enters them.
/// `segment::lemma_supercover_is_segment_cover` shows that these, with `p0`,
/// are exactly the cells whose unit square the segment passes through.
pub open spec fn supercover_path(p0: (int, int), p1: (int, int)) -> Seq<(int, int)> {
    let dx = p1.0 - p0.0;
    let dy = p1.1 - p0.1;
    walk(abs(dx), abs(dy), sign(dx), sign(dy), abs(dx) as nat, abs(dy) as nat, p0.0, p0.1)
}

/// All cells of the supercover line from `p0` to `p1`, `p0` first.
pub open spec fn supercover_cells(p0: (int, int), p1: (int, int)) -> Seq<(int, int)> {
    seq![p0] + supercover_path(p0, p1)
}

/// The differences `p1.x - p0.x` and `p1.y - p0.y` are `i32` values whose
/// absolute value is an `i32` too.
pub open spec fn walkable(p0: Point, p1: Point) -> bool {
    &&& i32::MIN < p1.x - p0.x <= i32::MAX
    &&& i32::MIN < p1.y - p0.y <= i32::MAX
}

/// The cells of a sequence of points.
pub open spec fn cells_of(points: Seq<Point>) -> Seq<(int, int)> {
    points.map_values(|p: Point| p@)
}

/// `b` is one move of a walk away from `a`: a horizontal move by `sx`, a
/// vertical move by `sy`, or a diagonal move by both.
pub open spec fn unit_move(a: (int, int), b: (int, int), sx: int, sy: int) -> bool {
    ||| b == (a.0 + sx, a.1)
    ||| b == (a.0, a.1 + sy)
    ||| b == (a.0 + sx, a.1 + sy)
}

/// The cell before `cells[i]` in a walk from `start` through `cells`.
pub open spec fn prev_cell(start: (int, int), cells: Seq<(int, int)>, i: int) -> (int, int) {
    if i == 0 {
        start
    } else {
        cells[i - 1]
    }
}

/// Each cell of `cells` is one move away from the one before it, the first
/// from `start`.
pub open spec fn moves_from(start: (int, int), cells: Seq<(int, int)>, sx: int, sy: int) -> bool {
    forall|i: int|
        0 <= i < cells.len() ==> #[trigger] unit_move(
            prev_cell(start, cells, i),
            cells[i],
            sx,
            sy,
        )
}

/// The larger of `a` and `b`.
pub open spec fn max(a: int, b: int) -> int {
    if a >= b {
        a
    } else {
        b
    }
}

/// What every walk satisfies: it makes between `max(rx, ry)` and `rx + ry`
/// moves, each a unit move in the directions `sx`, `sy`, and it ends
/// `rx` columns and `ry` rows away from where it started.
pub(crate) proof fn lemma_walk(nx: int, ny: int, sx: int, sy: int, rx: nat, ry: nat, x: int, y: int)
    ensures
        ({
            let w = walk(nx, ny, sx, sy, rx, ry, x, y);
            &&& max(rx as int, ry as int) <= w.len() <= rx + ry
            &&& rx + ry > 0 ==> w.last() == (x + sx * rx, y + sy * ry)
            &&& moves_from((x, y), w, sx, sy)
        }),
    decreases rx + ry,
{
    let w = walk(nx, ny, sx, sy, rx, ry, x, y);
    if rx == 0 && ry == 0 {
    } else {
        let d = decision(nx, ny, nx - rx, ny - ry);
        let (rx2, ry2, x2, y2) = if rx == 0 {
            (rx, (ry - 1) as nat, x, y + sy)
        } else if ry == 0 {
            ((rx - 1) as nat, ry, x + sx, y)
        } else if d == 0 {
            ((rx - 1) as nat, (ry - 1) as nat, x + sx, y + sy)
        } else if d < 0 {
            ((rx - 1) as nat, ry, x + sx, y)
        } else {
            (rx, (ry - 1) as nat, x, y + sy)
        };
        let rest = walk(nx, ny, sx, sy, rx2, ry2, x2, y2);
        assert(w == seq![(x2, y2)] + rest);
        lemma_walk(nx, ny, sx, sy, rx2, ry2, x2, y2);
        assert(unit_move((x, y), (x2, y2), sx, sy));
        assert(x2 + sx * rx2 == x + sx * rx) by (nonlinear_arith)
            requires
                (rx2 == rx && x2 == x) || (rx2 == rx - 1 && x2 == x + sx),
        ;
        assert(y2 + sy * ry2 == y + sy * ry) by (nonlinear_arith)
            requires
                (ry2 == ry && y2 == y) || (ry2 == ry - 1 && y2 == y + sy),
        ;
        assert forall|i: int| 0 <= i < w.len() implies #[trigger] unit_move(
            prev_cell((x, y), w, i),
            w[i],
            sx,
            sy,
        ) by {
            if i > 0 {
                assert(w[i] == rest[i - 1]);
                assert(unit_move(
                    prev_cell((x2, y2), rest, i - 1),
                    rest[i - 1],
                    sx,
                    sy,
                ));
            }
        }
    }
}

/// The walk in move counts: after each move, how many horizontal and how
/// many vertical unit moves have been made, starting from `nx - rx` and
/// `ny - ry`.
pub open spec fn index_walk(nx: int, ny: int, rx: nat, ry: nat) -> Seq<(int, int)> {
    walk(nx, ny, 1, 1, rx, ry, nx - rx, ny - ry)
}

/// A walk's cells are its move counts, scaled by the directions `sx`, `sy`
/// and placed from where it stands.
pub proof fn lemma_walk_indices(nx: int, ny: int, sx: int, sy: int, rx: nat, ry: nat, x: int, y: int)
    ensures
        ({
            let w = walk(nx, ny, sx, sy, rx, ry, x, y);
            let j = index_walk(nx, ny, rx, ry);
            &&& w.len() == j.len()
            &&& forall|i: int|
                0 <= i < w.len() ==> #[trigger] w[i] == (x + sx * (j[i].0 - (nx - rx)), y + sy * (
                j[i].1 - (ny - ry)))
        }),
    decreases rx + ry,
{
    let w = walk(nx, ny, sx, sy, rx, ry, x, y);
    let j = index_walk(nx, ny, rx, ry);
    if rx == 0 && ry == 0 {
    } else {
        let d = decision(nx, ny, nx - rx, ny - ry);
        let (rx2, ry2) = if rx == 0 {
            (rx, (ry - 1) as nat)
        } else if ry == 0 {
            ((rx - 1) as nat, ry)
        } else if d == 0 {
            ((rx - 1) as nat, (ry - 1) as nat)
        } else if d < 0 {
            ((rx - 1) as nat, ry)
        } else {
            (rx, (ry - 1) as nat)
        };
        let da = rx - rx2;
        let db = ry - ry2;
        let x2 = x + sx * da;
        let y2 = y + sy * db;
        assert(x2 == x + sx || x2 == x) by (nonlinear_arith)
            requires
                x2 == x + sx * da,
                da == 0 || da == 1,
        ;
        assert(y2 == y + sy || y2 == y) by (nonlinear_arith)
            requires
                y2 == y + sy * db,
                db == 0 || db == 1,
        ;
        let rest = walk(nx, ny, sx, sy, rx2, ry2, x2, y2);
        let jrest = index_walk(nx, ny, rx2, ry2);
        assert(w == seq![(x2, y2)] + rest);
        assert(j == seq![(nx - rx2, ny - ry2)] + jrest);
        lemma_walk_indices(nx, ny, sx, sy, rx2, ry2, x2, y2);
        assert forall|i: int| 0 <= i < w.len() implies #[trigger] w[i] == (x + sx * (j[i].0 - (nx
            - rx)), y + sy * (j[i].1 - (ny - ry))) by {
            if i == 0 {
                assert(j[0] == (nx - rx2, ny - ry2));
            } else {
                assert(w[i] == rest[i - 1]);
                assert(j[i] == jrest[i - 1]);
                let a = j[i].0;
                let b = j[i].1;
                assert(x2 + sx * (a - (nx - rx2)) == x + sx * (a - (nx - rx))) by (nonlinear_arith)
                    requires
                        x2 == x + sx * (rx - rx2),
                ;
                assert(y2 + sy * (b - (ny - ry2)) == y + sy * (b - (ny - ry))) by (nonlinear_arith)
                    requires
                        y2 == y + sy * (ry - ry2),
                ;
            }
        }
    }
}

/// The supercover line from `p0` to `p1` starts at `p0` and ends at `p1`.
pub proof fn lemma_supercover_endpoints(p0: (int, int), p1: (int, int))
    ensures
        supercover_cells(p0, p1)[0] == p0,
        supercover_cells(p0, p1).last() == p1,
{
    let dx = p1.0 - p0.0;
    let dy = p1.1 - p0.1;
    lemma_walk(abs(dx), abs(dy), sign(dx), sign(dy), abs(dx) as nat, abs(dy) as nat, p0.0, p0.1);
    assert(sign(dx) * abs(dx) == dx) by (nonlinear_arith);
    assert(sign(dy) * abs(dy) == dy) by (nonlinear_arith);
}

/// Every cell of the supercover line from `p0` to `p1` after the first is
/// one horizontal, vertical or diagonal move from the cell before it, in
/// the direction of `p1`, and differs from it.
pub proof fn lemma_supercover_connected(p0: (int, int), p1: (int, int))
    ensures
        ({
            let c = supercover_cells(p0, p1);
            forall|i: int|
                0 < i < c.len() ==> #[trigger] unit_move(
                    c[i - 1],
                    c[i],
                    sign(p1.0 - p0.0),
                    sign(p1.1 - p0.1),
                ) && c[i - 1] != c[i]
        }),
{
    crate::segment::lemma_supercover_distinct(p0, p1);
    let dx = p1.0 - p0.0;
    let dy = p1.1 - p0.1;
    let path = supercover_path(p0, p1);
    let c = supercover_cells(p0, p1);
    lemma_walk(abs(dx), abs(dy), sign(dx), sign(dy), abs(dx) as nat, abs(dy) as nat, p0.0, p0.1);
    assert forall|i: int| 0 < i < c.len() implies #[trigger] unit_move(
        c[i - 1],
        c[i],
        sign(dx),
        sign(dy),
    ) && c[i - 1] != c[i] by {
        assert(c[i - 1] != c[i]);
        assert(c[i] == path[i - 1]);
        assert(unit_move(
            prev_cell(p0, path, i - 1),
            path[i - 1],
            sign(dx),
            sign(dy),
        ));
    }
}

/// The supercover line from `p0` to `p1` has at least one cell more than
/// the larger of its horizontal and vertical extents, and at most one more
/// than their sum.
pub proof fn lemma_supercover_len(p0: (int, int), p1: (int, int))
    ensures
        max(abs(p1.0 - p0.0), abs(p1.1 - p0.1)) + 1 <= supercover_cells(p0, p1).len(),
        supercover_cells(p0, p1).len() <= abs(p1.0 - p0.0) + abs(p1.1 - p0.1) + 1,
{
    let dx = p1.0 - p0.0;
    let dy = p1.1 - p0.1;
    lemma_walk(abs(dx), abs(dy), sign(dx), sign(dy), abs(dx) as nat, abs(dy) as nat, p0.0, p0.1);
}

/// At a column or row edge of the walk the decision never asks for a move
/// that is no longer left.
pub(crate) proof fn lemma_decision_at_edges(nx: int, ny: int, ix: int, iy: int)
    requires
        0 <= ix <= nx,
        0 <= iy <= ny,
    ensures
        ix == nx && iy < ny ==> decision(nx, ny, ix, iy) > 0,
        iy == ny && ix < nx ==> decision(nx, ny, ix, iy) < 0,
{
    if ix == nx && iy < ny {
        assert((1 + 2 * ix) * ny - (1 + 2 * iy) * nx > 0) by (nonlinear_arith)
            requires
                ix == nx,
                0 <= iy < ny,
                0 <= nx,
        ;
    }
    if iy == ny && ix < nx {
        assert((1 + 2 * ix) * ny - (1 + 2 * iy) * nx < 0) by (nonlinear_arith)
            requires
                iy == ny,
                0 <= ix < nx,
                0 <= ny,
        ;
    }
}

/// The decision never leaves the `i64` range for moves of `i32` lines.
proof fn lemma_decision_bounded(nx: int, ny: int, ix: int, iy: int)
    requires
        0 <= ix <= nx <= i32::MAX,
        0 <= iy <= ny <= i32::MAX,
    ensures
        0 <= (1 + 2 * ix) * ny <= 0x7fff_ffff_ffff_ffff,
        0 <= (1 + 2 * iy) * nx <= 0x7fff_ffff_ffff_ffff,
{
    assert(0 <= (1 + 2 * ix) * ny <= 0x7fff_ffff_ffff_ffff) by (nonlinear_arith)
        requires
            0 <= ix <= 0x7fff_ffff,
            0 <= ny <= 0x7fff_ffff,
    ;
    assert(0 <= (1 + 2 * iy) * nx <= 0x7fff_ffff_ffff_ffff) by (nonlinear_arith)
        requires
            0 <= iy <= 0x7fff_ffff,
            0 <= nx <= 0x7fff_ffff,
    ;
}

/// A supercover walk in progress: it stands at `pos` after `ix` horizontal
/// and `iy` vertical unit moves out of `nx` and `ny`.
pub(crate) struct Walker {
    pub(crate) pos: Point,
    pub(crate) ix: i64,
    pub(crate) iy: i64,
    pub(crate) nx: i64,
    pub(crate) ny: i64,
    pub(crate) sx: i32,
    pub(crate) sy: i32,
    pub(crate) start: Ghost<Point>,
    pub(crate) end: Ghost<Point>,
}

impl Walker {
    /// The state is consistent with a walk from `start` to `end`.
    pub(crate) open spec fn wf(&self) -> bool {
        let s = self.start@;
        let e = self.end@;
        &&& 0 <= self.ix <= self.nx <= i32::MAX
        &&& 0 <= self.iy <= self.ny <= i32::MAX
        &&& self.nx == abs(e.x - s.x)
        &&& self.ny == abs(e.y - s.y)
        &&& self.sx == sign(e.x - s.x)
        &&& self.sy == sign(e.y - s.y)
        &&& (self.sx == 1 ==> self.pos.x == s.x + self.ix)
        &&& (self.sx == -1 ==> self.pos.x == s.x - self.ix)
        &&& (self.sx == 0 ==> self.pos.x == s.x)
        &&& (self.sy == 1 ==> self.pos.y == s.y + self.iy)
        &&& (self.sy == -1 ==> self.pos.y == s.y - self.iy)
        &&& (self.sy == 0 ==> self.pos.y == s.y)
    }

    /// The cells that the walk has still to enter.
    pub(crate) open spec fn remaining(&self) -> Seq<(int, int)> {
        walk(
            self.nx as int,
            self.ny as int,
            self.sx as int,
            self.sy as int,
            (self.nx - self.ix) as nat,
            (self.ny - self.iy) as nat,
            self.pos.x as int,
            self.pos.y as int,
        )
    }

    /// The walk has entered its last cell.
    pub(crate) open spec fn done(&self) -> bool {
        self.ix >= self.nx && self.iy >= self.ny
    }

    /// A walk standing at `p0`, bound for `p1`.
    pub(crate) fn new(p0: Point, p1: Point) -> (w: Walker)
        requires
            walkable(p0, p1),
        ensures
            w.wf(),
            w.start@ == p0,
            w.end@ == p1,
            w.pos == p0,
            w.remaining() == supercover_path(p0@, p1@),
    {
        let dx: i32 = p1.x - p0.x;
        let dy: i32 = p1.y - p0.y;
        let nx: i32 = if dx < 0 { -dx } else { dx };
        let ny: i32 = if dy < 0 { -dy } else { dy };
        let sx: i32 = if dx > 0 { 1 } else if dx < 0 { -1 } else { 0 };
        let sy: i32 = if dy > 0 { 1 } else if dy < 0 { -1 } else { 0 };
        Walker {
            pos: p0,
            ix: 0,
            iy: 0,
            nx: nx as i64,
            ny: ny as i64,
            sx,
            sy,
            start: Ghost(p0),
            end: Ghost(p1),
        }
    }

    /// Whether no move is left.
    pub(crate) fn is_done(&self) -> (b: bool)
        requires
            self.wf(),
        ensures
            b == self.done(),
            b <==> self.remaining().len() == 0,
    {
        proof {
            reveal_with_fuel(walk, 2);
        }
        self.ix >= self.nx && self.iy >= self.ny
    }

    /// Make one move of the walk, and enter the next cell.
    pub(crate) fn advance(&mut self)
        requires
            old(self).wf(),
            !old(self).done(),
        ensures
            final(self).wf(),
            final(self).start == old(self).start,
            final(self).end == old(self).end,
            old(self).remaining() == seq![final(self).pos@] + final(self).remaining(),
    {
        let ghost rx = (self.nx - self.ix) as nat;
        let ghost ry = (self.ny - self.iy) as nat;
        proof {
            lemma_decision_at_edges(self.nx as int, self.ny as int, self.ix as int, self.iy as int);
            lemma_decision_bounded(self.nx as int, self.ny as int, self.ix as int, self.iy as int);
        }
        let d: i64 = (1 + 2 * self.ix) * self.ny - (1 + 2 * self.iy) * self.nx;
        assert(d == decision(self.nx as int, self.ny as int, (self.nx - rx) as int, (self.ny - ry) as int));
        if d == 0 {
            self.pos.x = self.pos.x + self.sx;
            self.pos.y = self.pos.y + self.sy;
            self.ix = self.ix + 1;
            self.iy = self.iy + 1;
        } else if d < 0 {
            self.pos.x = self.pos.x + self.sx;
            self.ix = self.ix + 1;
        } else {
            self.pos.y = self.pos.y + self.sy;
            self.iy = self.iy + 1;
        }
    }
}

/// All cells of the supercover line from `p0` to `p1`: `p0` first, then each
/// cell that a walk along the segment enters, ending at `p1`.
pub fn supercover_points(p0: Point, p1: Point) -> (points: Vec<Point>)
    requires
        walkable(p0, p1),
    ensures
        cells_of(points@) == supercover_cells(p0@, p1@),
{
    let mut w = Walker::new(p0, p1);
    let mut points: Vec<Point> = Vec::new();
    points.push(p0);
    assert(cells_of(points@) =~= seq![p0@]);
    while !w.is_done()
        invariant
            w.wf(),
            cells_of(points@) + w.remaining() == supercover_cells(p0@, p1@),
        decreases w.remaining().len(),
    {
        let ghost before = points@;
        let ghost rest = w.remaining();
        w.advance();
        points.push(w.pos);
        assert(cells_of(points@) =~= cells_of(before).push(w.pos@));
        assert(cells_of(points@) + w.remaining() =~= cells_of(before) + rest);
    }
    points
}

} // verus!
