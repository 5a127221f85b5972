use vstd::prelude::*;

use crate::supercover::{
    abs, decision, index_walk, lemma_decision_at_edges, lemma_walk, lemma_walk_indices, sign,
    prev_cell, supercover_cells, supercover_path, unit_move,
};

verus! {

/// The segment from the centre of cell `(0, 0)` to the centre of cell
/// `(nx, ny)` (with `nx, ny >= 0`) passes through the inside of the unit
/// square of cell `(a, b)`.
///
/// Along the segment, at time `t` in `[0, 1]`, the point is inside column
/// `a` while `(2a - 1) / 2nx < t < (2a + 1) / 2nx`, and inside row `b` while
/// `(2b - 1) / 2ny < t < (2b + 1) / 2ny`. The two open intervals overlap, at a
/// time in `[0, 1]`, exactly when the cross-multiplied bounds below hold and
/// `0 <= a <= nx`, `0 <= b <= ny`. A segment of no length lies in the inside
/// of its one cell.
pub open spec fn meets(nx: int, ny: int, a: int, b: int) -> bool {
    &&& 0 <= a <= nx
    &&& 0 <= b <= ny
    &&& ((nx == 0 && ny == 0) || ((2 * a - 1) * ny < (1 + 2 * b) * nx && (2 * b - 1) * nx < (1
        + 2 * a) * ny))
}

/// The segment from the centre of cell `p0` to the centre of cell `p1`
/// passes through the inside of the unit square of cell `c`.
pub open spec fn segment_meets_cell(p0: (int, int), p1: (int, int), c: (int, int)) -> bool {
    let dx = p1.0 - p0.0;
    let dy = p1.1 - p0.1;
    let u = c.0 - p0.0;
    let v = c.1 - p0.1;
    &&& (dx == 0 ==> u == 0)
    &&& (dy == 0 ==> v == 0)
    &&& meets(abs(dx), abs(dy), sign(dx) * u, sign(dy) * v)
}

/// From a cell the segment meets, the walk's next move leads to a cell the
/// segment meets.
proof fn lemma_meets_step(nx: int, ny: int, ix: int, iy: int)
    requires
        meets(nx, ny, ix, iy),
        !(ix == nx && iy == ny),
    ensures
        ix == nx ==> meets(nx, ny, ix, iy + 1),
        ix < nx && iy == ny ==> meets(nx, ny, ix + 1, iy),
        ix < nx && iy < ny && decision(nx, ny, ix, iy) == 0 ==> meets(nx, ny, ix + 1, iy + 1),
        ix < nx && iy < ny && decision(nx, ny, ix, iy) < 0 ==> meets(nx, ny, ix + 1, iy),
        ix < nx && iy < ny && decision(nx, ny, ix, iy) > 0 ==> meets(nx, ny, ix, iy + 1),
{
    lemma_decision_at_edges(nx, ny, ix, iy);
    let d = decision(nx, ny, ix, iy);
    assert((2 * ix - 1) * ny < (1 + 2 * iy) * nx);
    assert((2 * iy - 1) * nx < (1 + 2 * ix) * ny);
    if ix < nx && (iy == ny || d < 0) {
        assert((2 * (ix + 1) - 1) * ny < (1 + 2 * iy) * nx) by (nonlinear_arith)
            requires
                d == (1 + 2 * ix) * ny - (1 + 2 * iy) * nx,
                d < 0,
        ;
        assert((2 * iy - 1) * nx < (1 + 2 * (ix + 1)) * ny) by (nonlinear_arith)
            requires
                (2 * iy - 1) * nx < (1 + 2 * ix) * ny,
                ny >= 0,
        ;
    }
    if ix == nx || (iy < ny && d > 0) {
        assert((2 * (iy + 1) - 1) * nx < (1 + 2 * ix) * ny) by (nonlinear_arith)
            requires
                d == (1 + 2 * ix) * ny - (1 + 2 * iy) * nx,
                d > 0,
        ;
        assert((2 * ix - 1) * ny < (1 + 2 * (iy + 1)) * nx) by (nonlinear_arith)
            requires
                (2 * ix - 1) * ny < (1 + 2 * iy) * nx,
                nx >= 0,
        ;
    }
    if ix < nx && iy < ny && d == 0 {
        assert((2 * (ix + 1) - 1) * ny < (1 + 2 * (iy + 1)) * nx) by (nonlinear_arith)
            requires
                d == (1 + 2 * ix) * ny - (1 + 2 * iy) * nx,
                d == 0,
                nx > 0,
        ;
        assert((2 * (iy + 1) - 1) * nx < (1 + 2 * (ix + 1)) * ny) by (nonlinear_arith)
            requires
                d == (1 + 2 * ix) * ny - (1 + 2 * iy) * nx,
                d == 0,
                ny > 0,
        ;
    }
}

/// Every cell that the walk enters from a cell the segment meets is met by
/// the segment.
proof fn lemma_index_walk_sound(nx: int, ny: int, rx: nat, ry: nat)
    requires
        rx <= nx,
        ry <= ny,
        meets(nx, ny, nx - rx, ny - ry),
    ensures
        forall|i: int|
            0 <= i < index_walk(nx, ny, rx, ry).len() ==> meets(
                nx,
                ny,
                (#[trigger] index_walk(nx, ny, rx, ry)[i]).0,
                index_walk(nx, ny, rx, ry)[i].1,
            ),
    decreases rx + ry,
{
    let j = index_walk(nx, ny, rx, ry);
    if rx == 0 && ry == 0 {
    } else {
        let ix = nx - rx;
        let iy = ny - ry;
        lemma_meets_step(nx, ny, ix, iy);
        let d = decision(nx, ny, ix, iy);
        let (rx2, ry2) = if rx == 0 {
            (rx, (ry - 1) as nat)
        } else if ry == 0 {
            ((rx - 1) as nat, ry)
        } else if d == 0 {
            ((rx - 1) as nat, (ry - 1) as nat)
        } else if d < 0 {
            ((rx - 1) as nat, ry)
        } else {
            (rx, (ry - 1) as nat)
        };
        let rest = index_walk(nx, ny, rx2, ry2);
        assert(j == seq![(nx - rx2, ny - ry2)] + rest);
        lemma_index_walk_sound(nx, ny, rx2, ry2);
        assert forall|i: int| 0 <= i < j.len() implies meets(nx, ny, (#[trigger] j[i]).0, j[i].1) by {
            if i > 0 {
                assert(j[i] == rest[i - 1]);
            }
        }
    }
}

/// Every cell the segment meets that lies at or beyond the walk's current
/// move counts (and is not the current cell) is entered by the walk.
proof fn lemma_index_walk_complete(nx: int, ny: int, rx: nat, ry: nat, a: int, b: int)
    requires
        rx <= nx,
        ry <= ny,
        meets(nx, ny, a, b),
        nx - rx <= a,
        ny - ry <= b,
        (a, b) != (nx - rx, ny - ry),
    ensures
        index_walk(nx, ny, rx, ry).contains((a, b)),
    decreases rx + ry,
{
    let j = index_walk(nx, ny, rx, ry);
    let ix = nx - rx;
    let iy = ny - ry;
    lemma_decision_at_edges(nx, ny, ix, iy);
    let d = decision(nx, ny, ix, iy);
    if ix == a && ix < nx && iy < ny {
        assert(d > 0) by (nonlinear_arith)
            requires
                d == (1 + 2 * ix) * ny - (1 + 2 * iy) * nx,
                ix == a,
                iy < b,
                (2 * b - 1) * nx < (1 + 2 * a) * ny,
                nx >= 0,
        ;
    }
    if iy == b && ix < nx && iy < ny {
        assert(d < 0) by (nonlinear_arith)
            requires
                d == (1 + 2 * ix) * ny - (1 + 2 * iy) * nx,
                iy == b,
                ix < a,
                (2 * a - 1) * ny < (1 + 2 * b) * nx,
                ny >= 0,
        ;
    }
    let (rx2, ry2) = if rx == 0 {
        (rx, (ry - 1) as nat)
    } else if ry == 0 {
        ((rx - 1) as nat, ry)
    } else if d == 0 {
        ((rx - 1) as nat, (ry - 1) as nat)
    } else if d < 0 {
        ((rx - 1) as nat, ry)
    } else {
        (rx, (ry - 1) as nat)
    };
    let rest = index_walk(nx, ny, rx2, ry2);
    assert(j == seq![(nx - rx2, ny - ry2)] + rest);
    if (a, b) == (nx - rx2, ny - ry2) {
        assert(j[0] == (a, b));
    } else {
        lemma_index_walk_complete(nx, ny, rx2, ry2, a, b);
        let k = choose|k: int| 0 <= k < rest.len() && rest[k] == (a, b);
        assert(j[k + 1] == (a, b));
    }
}

/// The supercover line from `p0` to `p1` is exactly the set of cells whose
/// unit square the segment between their centres passes through the inside
/// of.
pub proof fn lemma_supercover_is_segment_cover(p0: (int, int), p1: (int, int))
    ensures
        forall|c: (int, int)|
            #[trigger] supercover_cells(p0, p1).contains(c) <==> segment_meets_cell(p0, p1, c),
{
    let dx = p1.0 - p0.0;
    let dy = p1.1 - p0.1;
    let nx = abs(dx);
    let ny = abs(dy);
    let sx = sign(dx);
    let sy = sign(dy);
    let cells = supercover_cells(p0, p1);
    let path = supercover_path(p0, p1);
    let j = index_walk(nx, ny, nx as nat, ny as nat);
    lemma_walk_indices(nx, ny, sx, sy, nx as nat, ny as nat, p0.0, p0.1);
    assert(meets(nx, ny, 0, 0)) by (nonlinear_arith)
        requires
            nx >= 0,
            ny >= 0,
    ;
    lemma_index_walk_sound(nx, ny, nx as nat, ny as nat);
    assert forall|c: (int, int)| #[trigger] cells.contains(c) implies segment_meets_cell(p0, p1, c) by {
        let k = choose|k: int| 0 <= k < cells.len() && cells[k] == c;
        if k == 0 {
            assert(c == p0);
        } else {
            assert(c == path[k - 1]);
            let a = j[k - 1].0;
            let b = j[k - 1].1;
            assert(meets(nx, ny, a, b));
            assert(c == (p0.0 + sx * a, p0.1 + sy * b));
            assert(sx * (c.0 - p0.0) == a && (dx == 0 ==> c.0 - p0.0 == 0)) by (nonlinear_arith)
                requires
                    c.0 == p0.0 + sx * a,
                    sx == sign(dx),
                    nx == abs(dx),
                    0 <= a <= nx,
            ;
            assert(sy * (c.1 - p0.1) == b && (dy == 0 ==> c.1 - p0.1 == 0)) by (nonlinear_arith)
                requires
                    c.1 == p0.1 + sy * b,
                    sy == sign(dy),
                    ny == abs(dy),
                    0 <= b <= ny,
            ;
        }
    }
    assert forall|c: (int, int)| segment_meets_cell(p0, p1, c) implies #[trigger] cells.contains(
        c,
    ) by {
        let a = sx * (c.0 - p0.0);
        let b = sy * (c.1 - p0.1);
        assert(c.0 == p0.0 + sx * a) by (nonlinear_arith)
            requires
                a == sx * (c.0 - p0.0),
                sx == sign(dx),
                dx == 0 ==> c.0 - p0.0 == 0,
        ;
        assert(c.1 == p0.1 + sy * b) by (nonlinear_arith)
            requires
                b == sy * (c.1 - p0.1),
                sy == sign(dy),
                dy == 0 ==> c.1 - p0.1 == 0,
        ;
        if a == 0 && b == 0 {
            assert(cells[0] == c);
        } else {
            lemma_index_walk_complete(nx, ny, nx as nat, ny as nat, a, b);
            let k = choose|k: int| 0 <= k < j.len() && j[k] == (a, b);
            assert(path[k] == c);
            assert(cells[k + 1] == c);
        }
    }
}

/// How many unit moves from `p0` towards `p1` the cell `c` lies: its column
/// and row offsets from `p0`, each counted in the direction of `p1`.
pub open spec fn progress(p0: (int, int), p1: (int, int), c: (int, int)) -> int {
    sign(p1.0 - p0.0) * (c.0 - p0.0) + sign(p1.1 - p0.1) * (c.1 - p0.1)
}

/// Along a sequence whose `key` grows from each element to the next, it
/// grows from any element to any later one.
proof fn lemma_increasing(s: Seq<(int, int)>, key: spec_fn((int, int)) -> int, i: int, k: int)
    requires
        forall|m: int| 0 < m < s.len() ==> key(s[m - 1]) < key(#[trigger] s[m]),
        0 <= i < k < s.len(),
    ensures
        key(s[i]) < key(s[k]),
    decreases k - i,
{
    if i + 1 < k {
        lemma_increasing(s, key, i + 1, k);
    }
}

/// Each cell of the supercover line lies one or two unit moves further from
/// `p0` than the cell before it.
proof fn lemma_progress_grows(p0: (int, int), p1: (int, int))
    ensures
        ({
            let c = supercover_cells(p0, p1);
            forall|m: int|
                0 < m < c.len() ==> progress(p0, p1, c[m - 1]) < progress(p0, p1, #[trigger] c[m])
        }),
{
    let dx = p1.0 - p0.0;
    let dy = p1.1 - p0.1;
    let nx = abs(dx);
    let ny = abs(dy);
    let sx = sign(dx);
    let sy = sign(dy);
    let c = supercover_cells(p0, p1);
    let path = supercover_path(p0, p1);
    let j = index_walk(nx, ny, nx as nat, ny as nat);
    lemma_walk_indices(nx, ny, sx, sy, nx as nat, ny as nat, p0.0, p0.1);
    lemma_walk(nx, ny, 1, 1, nx as nat, ny as nat, 0, 0);
    assert(meets(nx, ny, 0, 0)) by (nonlinear_arith)
        requires
            nx >= 0,
            ny >= 0,
    ;
    lemma_index_walk_sound(nx, ny, nx as nat, ny as nat);
    assert forall|m: int| 0 <= m < j.len() implies progress(p0, p1, #[trigger] path[m]) == j[m].0
        + j[m].1 by {
        let a = j[m].0;
        let b = j[m].1;
        assert(meets(nx, ny, a, b));
        assert(sx * (sx * a) + sy * (sy * b) == a + b) by (nonlinear_arith)
            requires
                sx == sign(dx),
                sy == sign(dy),
                nx == abs(dx),
                ny == abs(dy),
                0 <= a <= nx,
                0 <= b <= ny,
        ;
    }
    assert forall|m: int| 0 < m < c.len() implies progress(p0, p1, c[m - 1]) < progress(
        p0,
        p1,
        #[trigger] c[m],
    ) by {
        assert(c[m] == path[m - 1]);
        assert(unit_move(prev_cell((0, 0), j, m - 1), j[m - 1], 1, 1));
        if m > 1 {
            assert(c[m - 1] == path[m - 2]);
        } else {
            assert(c[0] == p0);
            let sx0 = sign(p1.0 - p0.0);
            let sy0 = sign(p1.1 - p0.1);
            assert(sx0 * (p0.0 - p0.0) + sy0 * (p0.1 - p0.1) == 0) by (nonlinear_arith);
        }
    }
}

/// No cell of the supercover line from `p0` to `p1` comes twice; in
/// particular each move changes the cell.
pub proof fn lemma_supercover_distinct(p0: (int, int), p1: (int, int))
    ensures
        ({
            let c = supercover_cells(p0, p1);
            forall|i: int, k: int| 0 <= i < k < c.len() ==> #[trigger] c[i] != #[trigger] c[k]
        }),
{
    let c = supercover_cells(p0, p1);
    lemma_progress_grows(p0, p1);
    let key = |q: (int, int)| progress(p0, p1, q);
    assert forall|i: int, k: int| 0 <= i < k < c.len() implies #[trigger] c[i] != #[trigger] c[k] by {
        assert forall|m: int| 0 < m < c.len() implies key(c[m - 1]) < key(#[trigger] c[m]) by {
            assert(progress(p0, p1, c[m - 1]) < progress(p0, p1, c[m]));
        }
        lemma_increasing(c, key, i, k);
    }
}

/// In a sequence growing in `key` from every element to the next, an
/// element that comes again later is the first only if it stands first.
proof fn lemma_first_is_least(s: Seq<(int, int)>, key: spec_fn((int, int)) -> int, k: int)
    requires
        forall|m: int| 0 < m < s.len() ==> key(s[m - 1]) < key(#[trigger] s[m]),
        0 <= k < s.len(),
    ensures
        key(s[0]) <= key(s[k]),
        k > 0 ==> s[k] != s[0],
{
    if k > 0 {
        lemma_increasing(s, key, 0, k);
    }
}

/// Two sequences that hold the same elements, each growing in `key` from
/// every element to the next, start with the same element.
proof fn lemma_sorted_same_first(s: Seq<(int, int)>, t: Seq<(int, int)>, key: spec_fn((int, int)) -> int)
    requires
        forall|m: int| 0 < m < s.len() ==> key(s[m - 1]) < key(#[trigger] s[m]),
        forall|m: int| 0 < m < t.len() ==> key(t[m - 1]) < key(#[trigger] t[m]),
        forall|q: (int, int)| s.contains(q) <==> t.contains(q),
        s.len() > 0,
    ensures
        t.len() > 0,
        s[0] == t[0],
{
    assert(s.contains(s[0]));
    let m0 = choose|m: int| 0 <= m < t.len() && t[m] == s[0];
    assert(t.contains(t[0]));
    let k0 = choose|k: int| 0 <= k < s.len() && s[k] == t[0];
    lemma_first_is_least(s, key, k0);
    lemma_first_is_least(t, key, m0);
    if k0 > 0 {
        lemma_increasing(s, key, 0, k0);
    }
}

/// Dropping the same first element from two sequences that hold the same
/// elements, each growing in `key`, leaves sequences that hold the same
/// elements and still grow in `key`.
proof fn lemma_sorted_tails(s: Seq<(int, int)>, t: Seq<(int, int)>, key: spec_fn((int, int)) -> int)
    requires
        forall|m: int| 0 < m < s.len() ==> key(s[m - 1]) < key(#[trigger] s[m]),
        forall|m: int| 0 < m < t.len() ==> key(t[m - 1]) < key(#[trigger] t[m]),
        forall|q: (int, int)| s.contains(q) <==> t.contains(q),
        s.len() > 0,
        t.len() > 0,
        s[0] == t[0],
    ensures
        forall|q: (int, int)| s.drop_first().contains(q) <==> t.drop_first().contains(q),
        forall|m: int|
            0 < m < s.drop_first().len() ==> key(s.drop_first()[m - 1]) < key(
                #[trigger] s.drop_first()[m],
            ),
        forall|m: int|
            0 < m < t.drop_first().len() ==> key(t.drop_first()[m - 1]) < key(
                #[trigger] t.drop_first()[m],
            ),
{
    let s2 = s.drop_first();
    let t2 = t.drop_first();
    assert forall|q: (int, int)| s2.contains(q) implies t2.contains(q) by {
        let k = choose|k: int| 0 <= k < s2.len() && s2[k] == q;
        lemma_first_is_least(s, key, k + 1);
        assert(s.contains(q));
        let m = choose|m: int| 0 <= m < t.len() && t[m] == q;
        assert(t2[m - 1] == q);
    }
    assert forall|q: (int, int)| t2.contains(q) implies s2.contains(q) by {
        let m = choose|m: int| 0 <= m < t2.len() && t2[m] == q;
        lemma_first_is_least(t, key, m + 1);
        assert(t.contains(q));
        let k = choose|k: int| 0 <= k < s.len() && s[k] == q;
        assert(s2[k - 1] == q);
    }
    assert forall|m: int| 0 < m < s2.len() implies key(s2[m - 1]) < key(#[trigger] s2[m]) by {
        assert(s2[m] == s[m + 1]);
        assert(s2[m - 1] == s[m]);
    }
    assert forall|m: int| 0 < m < t2.len() implies key(t2[m - 1]) < key(#[trigger] t2[m]) by {
        assert(t2[m] == t[m + 1]);
        assert(t2[m - 1] == t[m]);
    }
}

/// Two sequences that hold the same elements, each growing in `key` from
/// every element to the next, are equal.
proof fn lemma_sorted_unique(s: Seq<(int, int)>, t: Seq<(int, int)>, key: spec_fn((int, int)) -> int)
    requires
        forall|m: int| 0 < m < s.len() ==> key(s[m - 1]) < key(#[trigger] s[m]),
        forall|m: int| 0 < m < t.len() ==> key(t[m - 1]) < key(#[trigger] t[m]),
        forall|q: (int, int)| s.contains(q) <==> t.contains(q),
    ensures
        s == t,
    decreases s.len(),
{
    if s.len() == 0 {
        if t.len() > 0 {
            assert(t.contains(t[0]));
        }
        assert(s =~= t);
    } else {
        lemma_sorted_same_first(s, t, key);
        lemma_sorted_tails(s, t, key);
        lemma_sorted_unique(s.drop_first(), t.drop_first(), key);
        assert(s =~= seq![s[0]] + s.drop_first());
        assert(t =~= seq![t[0]] + t.drop_first());
    }
}

/// The segment meets the same cells whichever end it is drawn from.
proof fn lemma_segment_symmetric(p0: (int, int), p1: (int, int), c: (int, int))
    ensures
        segment_meets_cell(p0, p1, c) == segment_meets_cell(p1, p0, c),
{
    let dx = p1.0 - p0.0;
    let dy = p1.1 - p0.1;
    let nx = abs(dx);
    let ny = abs(dy);
    let a = sign(dx) * (c.0 - p0.0);
    let b = sign(dy) * (c.1 - p0.1);
    let a2 = sign(-dx) * (c.0 - p1.0);
    let b2 = sign(-dy) * (c.1 - p1.1);
    assert(a2 == nx - a) by (nonlinear_arith)
        requires
            a == sign(dx) * (c.0 - p0.0),
            a2 == sign(-dx) * (c.0 - p1.0),
            dx == p1.0 - p0.0,
            nx == abs(dx),
    ;
    assert(b2 == ny - b) by (nonlinear_arith)
        requires
            b == sign(dy) * (c.1 - p0.1),
            b2 == sign(-dy) * (c.1 - p1.1),
            dy == p1.1 - p0.1,
            ny == abs(dy),
    ;
    assert(abs(-dx) == nx && abs(-dy) == ny);
    assert(meets(nx, ny, a, b) == meets(nx, ny, nx - a, ny - b)) by (nonlinear_arith)
        requires
            nx >= 0,
            ny >= 0,
    ;
}

/// Counted from the other end, the progress of a cell is what is left of
/// the whole line.
proof fn lemma_progress_from_other_end(p0: (int, int), p1: (int, int), q: (int, int))
    ensures
        progress(p1, p0, q) == abs(p1.0 - p0.0) + abs(p1.1 - p0.1) - progress(p0, p1, q),
{
    let dx = p1.0 - p0.0;
    let dy = p1.1 - p0.1;
    assert(sign(-dx) * (q.0 - p1.0) == abs(dx) - sign(dx) * (q.0 - p0.0)) by (nonlinear_arith)
        requires
            dx == p1.0 - p0.0,
    ;
    assert(sign(-dy) * (q.1 - p1.1) == abs(dy) - sign(dy) * (q.1 - p0.1)) by (nonlinear_arith)
        requires
            dy == p1.1 - p0.1,
    ;
}

/// The supercover line from `p1` back to `p0`, read backwards, holds the
/// cells of the line from `p0` and grows in progress from `p0`.
proof fn lemma_reversed_line(p0: (int, int), p1: (int, int))
    ensures
        ({
            let s = supercover_cells(p0, p1);
            let t = supercover_cells(p1, p0).reverse();
            &&& forall|m: int|
                0 < m < t.len() ==> progress(p0, p1, t[m - 1]) < progress(p0, p1, #[trigger] t[m])
            &&& forall|q: (int, int)| s.contains(q) <==> t.contains(q)
        }),
{
    let s = supercover_cells(p0, p1);
    let r = supercover_cells(p1, p0);
    let t = r.reverse();
    lemma_progress_grows(p1, p0);
    assert forall|m: int| 0 < m < t.len() implies progress(p0, p1, t[m - 1]) < progress(
        p0,
        p1,
        #[trigger] t[m],
    ) by {
        let n = r.len();
        assert(t[m] == r[n - 1 - m]);
        assert(t[m - 1] == r[n - m]);
        assert(progress(p1, p0, r[n - 1 - m]) < progress(p1, p0, r[n - m]));
        lemma_progress_from_other_end(p0, p1, t[m]);
        lemma_progress_from_other_end(p0, p1, t[m - 1]);
    }
    lemma_supercover_is_segment_cover(p0, p1);
    lemma_supercover_is_segment_cover(p1, p0);
    assert forall|q: (int, int)| s.contains(q) <==> t.contains(q) by {
        lemma_segment_symmetric(p0, p1, q);
        assert(s.contains(q) <==> r.contains(q));
        if r.contains(q) {
            let k = choose|k: int| 0 <= k < r.len() && r[k] == q;
            assert(t[r.len() - 1 - k] == q);
        }
        if t.contains(q) {
            let k = choose|k: int| 0 <= k < t.len() && t[k] == q;
            assert(r[r.len() - 1 - k] == q);
        }
    }
}

/// A sequence `r` that, read backwards, holds the elements of `s` and grows
/// in `key` as `s` does, is `s` reversed.
proof fn lemma_reverse_of_sorted(s: Seq<(int, int)>, r: Seq<(int, int)>, key: spec_fn((int, int)) -> int)
    requires
        forall|m: int| 0 < m < s.len() ==> key(s[m - 1]) < key(#[trigger] s[m]),
        forall|m: int|
            0 < m < r.reverse().len() ==> key(r.reverse()[m - 1]) < key(#[trigger] r.reverse()[m]),
        forall|q: (int, int)| s.contains(q) <==> r.reverse().contains(q),
    ensures
        r == s.reverse(),
{
    lemma_sorted_unique(s, r.reverse(), key);
    assert(r =~= r.reverse().reverse());
}

/// Walked from `p1` back to `p0`, the supercover line visits the same cells
/// in the reverse order.
pub proof fn lemma_supercover_reverse(p0: (int, int), p1: (int, int))
    ensures
        supercover_cells(p1, p0) == supercover_cells(p0, p1).reverse(),
{
    let s = supercover_cells(p0, p1);
    let r = supercover_cells(p1, p0);
    let key = |q: (int, int)| progress(p0, p1, q);
    lemma_progress_grows(p0, p1);
    lemma_reversed_line(p0, p1);
    assert forall|m: int| 0 < m < s.len() implies key(s[m - 1]) < key(#[trigger] s[m]) by {
        assert(progress(p0, p1, s[m - 1]) < progress(p0, p1, s[m]));
    }
    assert forall|m: int| 0 < m < r.reverse().len() implies key(r.reverse()[m - 1]) < key(
        #[trigger] r.reverse()[m],
    ) by {
        assert(progress(p0, p1, r.reverse()[m - 1]) < progress(p0, p1, r.reverse()[m]));
    }
    lemma_reverse_of_sorted(s, r, key);
}

/// Every cell of the supercover line from `p0` to `p1` lies in the box with
/// corners `p0` and `p1`.
pub proof fn lemma_supercover_in_box(p0: (int, int), p1: (int, int))
    ensures
        forall|c: (int, int)|
            #[trigger] supercover_cells(p0, p1).contains(c) ==> {
                &&& (p0.0 <= c.0 <= p1.0 || p1.0 <= c.0 <= p0.0)
                &&& (p0.1 <= c.1 <= p1.1 || p1.1 <= c.1 <= p0.1)
            },
{
    lemma_supercover_is_segment_cover(p0, p1);
    assert forall|c: (int, int)| #[trigger] supercover_cells(p0, p1).contains(c) implies {
        &&& (p0.0 <= c.0 <= p1.0 || p1.0 <= c.0 <= p0.0)
        &&& (p0.1 <= c.1 <= p1.1 || p1.1 <= c.1 <= p0.1)
    } by {
        let dx = p1.0 - p0.0;
        let dy = p1.1 - p0.1;
        assert(segment_meets_cell(p0, p1, c));
        let a = sign(dx) * (c.0 - p0.0);
        let b = sign(dy) * (c.1 - p0.1);
        assert(0 <= a <= abs(dx) && 0 <= b <= abs(dy));
        assert(p0.0 <= c.0 <= p1.0 || p1.0 <= c.0 <= p0.0) by (nonlinear_arith)
            requires
                a == sign(dx) * (c.0 - p0.0),
                0 <= a <= abs(dx),
                dx == p1.0 - p0.0,
                dx == 0 ==> c.0 - p0.0 == 0,
        ;
        assert(p0.1 <= c.1 <= p1.1 || p1.1 <= c.1 <= p0.1) by (nonlinear_arith)
            requires
                b == sign(dy) * (c.1 - p0.1),
                0 <= b <= abs(dy),
                dy == p1.1 - p0.1,
                dy == 0 ==> c.1 - p0.1 == 0,
        ;
    }
}

} // verus!
