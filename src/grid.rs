use vstd::arithmetic::div_mod::{lemma_fundamental_div_mod, lemma_fundamental_div_mod_converse};
use vstd::prelude::*;

verus! {

// Grids are stored row by row: the cell at column `x` and row `y` of a grid
// `w` cells wide has index `y * w + x`.

/// One step right or one step down from `a` inside a grid of `n` cells, `w` wide.
pub open spec fn step(w: int, n: int, a: int, b: int) -> bool {
    0 <= a < n && 0 <= b < n && ((b == a + 1 && a % w != w - 1) || b == a + w)
}

/// `a` and `b` share an edge (4-directional adjacency).
pub open spec fn adjacent(w: int, n: int, a: int, b: int) -> bool {
    step(w, n, a, b) || step(w, n, b, a)
}

/// A set of cells that a flood fill over the passable cells of `pass` cannot leave.
pub open spec fn closed(pass: Seq<bool>, w: int, s: Set<int>) -> bool {
    forall|a: int, b: int|
        #![trigger s.contains(a), adjacent(w, pass.len() as int, a, b)]
        s.contains(a) && adjacent(w, pass.len() as int, a, b) && pass[b] ==> s.contains(b)
}

/// A flood fill from `a` over the passable cells reaches `b`: every set closed
/// under passable adjacency that holds `a` holds `b`.
pub open spec fn connected(pass: Seq<bool>, w: int, a: int, b: int) -> bool {
    forall|s: Set<int>| #[trigger] closed(pass, w, s) && s.contains(a) ==> s.contains(b)
}

/// The cell lies on the outermost ring of a grid `w` wide and `h` high.
pub open spec fn on_border(w: int, h: int, i: int) -> bool {
    i / w == 0 || i / w == h - 1 || i % w == 0 || i % w == w - 1
}

/// Sizes that every stage of the generator accepts.
pub open spec fn dims_ok(w: int, h: int) -> bool {
    3 <= w && 3 <= h && w <= MAX_SIDE && h <= MAX_SIDE && w * h <= usize::MAX
}

/// Longest side a grid may have.
pub const MAX_SIDE: u32 = 0x8000_0000;

/// The cell `dx` columns and `dy` rows away from cell `i`, if that lies in the grid.
pub open spec fn offset<T>(p: Seq<T>, w: int, h: int, i: int, dx: int, dy: int) -> Option<T> {
    let x = i % w;
    let y = i / w;
    if 0 <= x + dx < w && 0 <= y + dy < h {
        Some(p[(y + dy) * w + x + dx])
    } else {
        None
    }
}

/// Reads the cell `dx - 1` columns and `dy - 1` rows away from column `x`, row `y`.
pub fn get_offset<T: Copy>(
    p: &Vec<T>,
    w: usize,
    h: usize,
    x: usize,
    y: usize,
    dx: usize,
    dy: usize,
) -> (r: Option<T>)
    requires
        dims_ok(w as int, h as int),
        p@.len() == w * h,
        x < w,
        y < h,
        dx <= 2,
        dy <= 2,
    ensures
        r == offset(p@, w as int, h as int, y * w + x, dx - 1, dy - 1),
{
    proof {
        lemma_cell(w as int, h as int, x as int, y as int);
        assert(w + 2 <= w * h) by (nonlinear_arith)
            requires
                3 <= w,
                3 <= h,
        ;
        assert(h + 2 <= w * h) by (nonlinear_arith)
            requires
                3 <= w,
                3 <= h,
        ;
    }
    if x + dx >= 1 && x + dx - 1 < w && y + dy >= 1 && y + dy - 1 < h {
        let nx = x + dx - 1;
        let ny = y + dy - 1;
        proof {
            lemma_cell(w as int, h as int, nx as int, ny as int);
        }
        let j = ny * w + nx;
        Some(p[j])
    } else {
        None
    }
}

pub proof fn lemma_connected_refl(pass: Seq<bool>, w: int, a: int)
    ensures
        connected(pass, w, a, a),
{
}

pub proof fn lemma_connected_trans(pass: Seq<bool>, w: int, a: int, b: int, c: int)
    requires
        connected(pass, w, a, b),
        connected(pass, w, b, c),
    ensures
        connected(pass, w, a, c),
{
    assert forall|s: Set<int>| #[trigger] closed(pass, w, s) && s.contains(a) implies s.contains(
        c,
    ) by {
        assert(s.contains(b));
    }
}

/// Reaching `a` and stepping to a passable neighbour `b` reaches `b`, and back.
pub proof fn lemma_connected_step(pass: Seq<bool>, w: int, seed: int, a: int, b: int)
    requires
        connected(pass, w, seed, a),
        connected(pass, w, a, seed),
        adjacent(w, pass.len() as int, a, b),
        pass[a],
        pass[b],
    ensures
        connected(pass, w, seed, b),
        connected(pass, w, b, seed),
{
    assert forall|s: Set<int>| #[trigger] closed(pass, w, s) && s.contains(seed) implies s.contains(
        b,
    ) by {
        assert(s.contains(a));
    }
    assert forall|s: Set<int>| #[trigger] closed(pass, w, s) && s.contains(b) implies s.contains(
        seed,
    ) by {
        assert(adjacent(w, pass.len() as int, b, a));
        assert(s.contains(a));
    }
}

/// Index arithmetic for the cell at column `x`, row `y`.
pub proof fn lemma_cell(w: int, h: int, x: int, y: int)
    requires
        0 <= x < w,
        0 <= y < h,
    ensures
        0 <= y * w + x < w * h,
        (y * w + x) % w == x,
        (y * w + x) / w == y,
        (y + 1) * w + x == y * w + x + w,
        y + 1 < h ==> y * w + x + w < w * h,
        y * w <= y * w + x,
        w <= w * h,
{
    assert(0 <= y * w) by (nonlinear_arith)
        requires
            0 <= y,
            0 <= w,
    ;
    assert(y * w + x < w * h) by (nonlinear_arith)
        requires
            0 <= x < w,
            0 <= y < h,
    ;
    assert((y + 1) * w == y * w + w) by (nonlinear_arith);
    assert(y + 1 < h ==> (y + 1) * w + x < w * h) by (nonlinear_arith)
        requires
            0 <= x < w,
            0 <= y,
    ;
    assert(w <= w * h) by (nonlinear_arith)
        requires
            0 <= y < h,
            0 < w,
    ;
    lemma_fundamental_div_mod_converse(y * w + x, w, y, x);
}

/// Index of the cell at column `x`, row `y` of a grid `w` wide.
pub open spec fn cell(w: int, x: int, y: int) -> int {
    y * w + x
}

/// Index of the cell at position `pos` of line `line`: lines are rows when
/// `rows` holds, else columns.
pub open spec fn line_cell(w: int, rows: bool, line: int, pos: int) -> int {
    if rows {
        cell(w, pos, line)
    } else {
        cell(w, line, pos)
    }
}

pub fn line_index(w: usize, h: usize, rows: bool, line: usize, pos: usize) -> (r: usize)
    requires
        dims_ok(w as int, h as int),
        rows ==> line < h && pos < w,
        !rows ==> line < w && pos < h,
    ensures
        r == line_cell(w as int, rows, line as int, pos as int),
        r < w * h,
        rows ==> (r as int) % (w as int) == pos && (r as int) / (w as int) == line,
        !rows ==> (r as int) % (w as int) == line && (r as int) / (w as int) == pos,
{
    if rows {
        proof {
            lemma_cell(w as int, h as int, pos as int, line as int);
        }
        line * w + pos
    } else {
        proof {
            lemma_cell(w as int, h as int, line as int, pos as int);
        }
        pos * w + line
    }
}

/// Column and row of a cell index.
pub proof fn lemma_coords(w: int, h: int, i: int)
    requires
        0 < w,
        0 < h,
        0 <= i < w * h,
    ensures
        0 <= i % w < w,
        0 <= i / w < h,
        i == (i / w) * w + i % w,
{
    lemma_fundamental_div_mod(i, w);
    assert(0 <= i % w < w) by {
        vstd::arithmetic::div_mod::lemma_mod_bound(i, w);
    }
    let y = i / w;
    assert(0 <= y < h) by (nonlinear_arith)
        requires
            i == w * y + i % w,
            0 <= i % w < w,
            0 <= i < w * h,
            0 < w,
    ;
    assert(i == (i / w) * w + i % w) by (nonlinear_arith)
        requires
            i == w * (i / w) + i % w,
    ;
}

/// The cell at column `x`, row `y` of a grid that wraps round on both axes.
pub open spec fn wrapped(g: Seq<bool>, w: int, h: int, x: int, y: int) -> bool {
    g[(y % h) * w + x % w]
}

/// Column offset, in a square window of side `p`, that symmetry `o` (one of
/// the eight rotations and reflections) sends offset `(dx, dy)` to.
pub open spec fn turn_x(o: int, p: int, dx: int, dy: int) -> int {
    if o == 0 || o == 5 {
        dx
    } else if o == 1 || o == 7 {
        p - 1 - dy
    } else if o == 2 || o == 4 {
        p - 1 - dx
    } else {
        dy
    }
}

/// Row offset that symmetry `o` sends offset `(dx, dy)` to.
pub open spec fn turn_y(o: int, p: int, dx: int, dy: int) -> int {
    if o == 0 || o == 4 {
        dy
    } else if o == 1 || o == 6 {
        dx
    } else if o == 2 || o == 5 {
        p - 1 - dy
    } else {
        p - 1 - dx
    }
}

/// The `p`-square window of `out` at `(x, y)` is the window of `ex` at
/// `(ox, oy)` under symmetry `o`, both grids wrapping round.
pub open spec fn window_matches(
    out: Seq<bool>,
    w: int,
    h: int,
    x: int,
    y: int,
    ex: Seq<bool>,
    ew: int,
    eh: int,
    p: int,
    ox: int,
    oy: int,
    o: int,
) -> bool {
    forall|dx: int, dy: int|
        0 <= dx < p && 0 <= dy < p ==> #[trigger] wrapped(out, w, h, x + dx, y + dy) == wrapped(
            ex,
            ew,
            eh,
            ox + turn_x(o, p, dx, dy),
            oy + turn_y(o, p, dx, dy),
        )
}

/// The `p`-square window of `out` at `(x, y)` is a rotated or reflected
/// window of the example `ex`.
pub open spec fn window_from_example(
    out: Seq<bool>,
    w: int,
    h: int,
    x: int,
    y: int,
    ex: Seq<bool>,
    ew: int,
    eh: int,
    p: int,
) -> bool {
    exists|ox: int, oy: int, o: int|
        0 <= ox < ew && 0 <= oy < eh && 0 <= o < 8 && #[trigger] window_matches(
            out,
            w,
            h,
            x,
            y,
            ex,
            ew,
            eh,
            p,
            ox,
            oy,
            o,
        )
}

} // verus!
