use crate::flood::{count_of, is_labelling, label_regions, region_sizes};
use crate::grid::{dims_ok, get_offset, lemma_cell, offset, on_border};
use crate::level::SewerCell;
use vstd::prelude::*;

verus! {

/// The cell `dx` columns and `dy` rows away lies in the grid and outside pool `id`.
pub open spec fn gap_at(
    p: Seq<Option<usize>>,
    w: int,
    h: int,
    i: int,
    dx: int,
    dy: int,
    id: usize,
) -> bool {
    offset(p, w, h, i, dx, dy) is Some && offset(p, w, h, i, dx, dy) != Some(Some(id))
}

/// One of the eight cells around `i` lies in the grid and outside pool `id`.
pub open spec fn touches_gap(p: Seq<Option<usize>>, w: int, h: int, i: int, id: usize) -> bool {
    gap_at(p, w, h, i, -1, -1, id) || gap_at(p, w, h, i, 0, -1, id) || gap_at(p, w, h, i, 1, -1, id)
        || gap_at(p, w, h, i, -1, 0, id) || gap_at(p, w, h, i, 1, 0, id) || gap_at(
        p,
        w,
        h,
        i,
        -1,
        1,
        id,
    ) || gap_at(p, w, h, i, 0, 1, id) || gap_at(p, w, h, i, 1, 1, id)
}

/// One erosion of pool `id`: its cells next to a cell outside that pool leave it.
pub open spec fn shrink_spec(p: Seq<Option<usize>>, w: int, h: int, id: usize) -> Seq<Option<usize>> {
    Seq::new(
        p.len(),
        |i: int|
            if p[i] == Some(id) && touches_gap(p, w, h, i, id) {
                None
            } else {
                p[i]
            },
    )
}

/// Pool `id` eroded `k` times.
pub open spec fn shrunk(p: Seq<Option<usize>>, w: int, h: int, id: usize, k: nat) -> Seq<
    Option<usize>,
>
    decreases k,
{
    if k == 0 {
        p
    } else {
        shrink_spec(shrunk(p, w, h, id, (k - 1) as nat), w, h, id)
    }
}

/// The cell `dx` columns and `dy` rows away is outside the grid or outside every pool.
pub open spec fn vacant(p: Seq<Option<usize>>, w: int, h: int, i: int, dx: int, dy: int) -> bool {
    match offset(p, w, h, i, dx, dy) {
        Some(v) => v.is_none(),
        None => true,
    }
}

/// A pool cell whose two horizontal, or two vertical, neighbours are both vacant.
pub open spec fn sharp(p: Seq<Option<usize>>, w: int, h: int, i: int) -> bool {
    p[i].is_some() && ((vacant(p, w, h, i, 1, 0) && vacant(p, w, h, i, -1, 0)) || (vacant(
        p,
        w,
        h,
        i,
        0,
        1,
    ) && vacant(p, w, h, i, 0, -1)))
}

pub open spec fn unsharpened(p: Seq<Option<usize>>, w: int, h: int) -> Seq<Option<usize>> {
    Seq::new(
        p.len(),
        |i: int|
            if sharp(p, w, h, i) {
                None
            } else {
                p[i]
            },
    )
}

fn is_gap(c: Option<Option<usize>>, id: usize) -> (r: bool)
    ensures
        r == (c is Some && c != Some(Some(id))),
{
    match c {
        Some(v) => match v {
            Some(q) => q != id,
            None => true,
        },
        None => false,
    }
}

fn same_id(c: Option<usize>, id: usize) -> (r: bool)
    ensures
        r == (c == Some(id)),
{
    match c {
        Some(v) => v == id,
        None => false,
    }
}

fn touches_gap_at(p: &Vec<Option<usize>>, w: usize, h: usize, x: usize, y: usize, id: usize) -> (r:
    bool)
    requires
        dims_ok(w as int, h as int),
        p@.len() == w * h,
        x < w,
        y < h,
    ensures
        r == touches_gap(p@, w as int, h as int, y * w + x, id),
{
    is_gap(get_offset(p, w, h, x, y, 0, 0), id) || is_gap(get_offset(p, w, h, x, y, 1, 0), id)
        || is_gap(get_offset(p, w, h, x, y, 2, 0), id) || is_gap(get_offset(p, w, h, x, y, 0, 1), id)
        || is_gap(get_offset(p, w, h, x, y, 2, 1), id) || is_gap(get_offset(p, w, h, x, y, 0, 2), id)
        || is_gap(get_offset(p, w, h, x, y, 1, 2), id) || is_gap(get_offset(p, w, h, x, y, 2, 2), id)
}

fn vacant_at(
    p: &Vec<Option<usize>>,
    w: usize,
    h: usize,
    x: usize,
    y: usize,
    dx: usize,
    dy: usize,
) -> (r: bool)
    requires
        dims_ok(w as int, h as int),
        p@.len() == w * h,
        x < w,
        y < h,
        dx <= 2,
        dy <= 2,
    ensures
        r == vacant(p@, w as int, h as int, y * w + x, dx - 1, dy - 1),
{
    match get_offset(p, w, h, x, y, dx, dy) {
        Some(v) => v.is_none(),
        None => true,
    }
}

/// Erodes pool `id` by one cell: each of its cells with a cell outside that
/// pool among its eight neighbours in the grid leaves the pool.
pub fn shrink_pool(p: &Vec<Option<usize>>, w: usize, h: usize, id: usize) -> (r: Vec<Option<usize>>)
    requires
        dims_ok(w as int, h as int),
        p@.len() == w * h,
    ensures
        r@ == shrink_spec(p@, w as int, h as int, id),
{
    let ghost want = shrink_spec(p@, w as int, h as int, id);
    let mut out: Vec<Option<usize>> = Vec::new();
    let mut y: usize = 0;
    while y < h
        invariant
            dims_ok(w as int, h as int),
            p@.len() == w * h,
            want == shrink_spec(p@, w as int, h as int, id),
            y <= h,
            out@.len() == y * w,
            forall|j: int| 0 <= j < out@.len() ==> out@[j] == #[trigger] want[j],
        decreases h - y,
    {
        let mut x: usize = 0;
        proof {
            lemma_cell(w as int, h as int, 0, y as int);
        }
        while x < w
            invariant
                dims_ok(w as int, h as int),
                p@.len() == w * h,
                want == shrink_spec(p@, w as int, h as int, id),
                y < h,
                x <= w,
                out@.len() == y * w + x,
                forall|j: int| 0 <= j < out@.len() ==> out@[j] == #[trigger] want[j],
            decreases w - x,
        {
            proof {
                lemma_cell(w as int, h as int, x as int, y as int);
            }
            let i = y * w + x;
            let v = if same_id(p[i], id) && touches_gap_at(p, w, h, x, y, id) {
                None
            } else {
                p[i]
            };
            out.push(v);
            x = x + 1;
        }
        y = y + 1;
    }
    proof {
        assert(h * w == w * h) by (nonlinear_arith);
        assert(out@ =~= want);
    }
    out
}

/// Erodes pool `id` `by` times over.
pub fn shrink_pool_by(p: Vec<Option<usize>>, w: usize, h: usize, id: usize, by: usize) -> (r: Vec<
    Option<usize>,
>)
    requires
        dims_ok(w as int, h as int),
        p@.len() == w * h,
    ensures
        r@ == shrunk(p@, w as int, h as int, id, by as nat),
        r@.len() == p@.len(),
{
    let mut cur = p;
    let mut k: usize = 0;
    while k < by
        invariant
            dims_ok(w as int, h as int),
            k <= by,
            cur@ == shrunk(p@, w as int, h as int, id, k as nat),
            cur@.len() == w * h,
        decreases by - k,
    {
        cur = shrink_pool(&cur, w, h, id);
        k = k + 1;
    }
    cur
}

/// Removes every pool cell whose two horizontal neighbours, or two vertical
/// neighbours, are both outside the grid or outside every pool.
pub fn remove_sharp_edges(p: &Vec<Option<usize>>, w: usize, h: usize) -> (r: Vec<Option<usize>>)
    requires
        dims_ok(w as int, h as int),
        p@.len() == w * h,
    ensures
        r@ == unsharpened(p@, w as int, h as int),
{
    let ghost want = unsharpened(p@, w as int, h as int);
    let mut out: Vec<Option<usize>> = Vec::new();
    let mut y: usize = 0;
    while y < h
        invariant
            dims_ok(w as int, h as int),
            p@.len() == w * h,
            want == unsharpened(p@, w as int, h as int),
            y <= h,
            out@.len() == y * w,
            forall|j: int| 0 <= j < out@.len() ==> out@[j] == #[trigger] want[j],
        decreases h - y,
    {
        let mut x: usize = 0;
        proof {
            lemma_cell(w as int, h as int, 0, y as int);
        }
        while x < w
            invariant
                dims_ok(w as int, h as int),
                p@.len() == w * h,
                want == unsharpened(p@, w as int, h as int),
                y < h,
                x <= w,
                out@.len() == y * w + x,
                forall|j: int| 0 <= j < out@.len() ==> out@[j] == #[trigger] want[j],
            decreases w - x,
        {
            proof {
                lemma_cell(w as int, h as int, x as int, y as int);
            }
            let i = y * w + x;
            let is_sharp = p[i].is_some() && ((vacant_at(p, w, h, x, y, 2, 1) && vacant_at(
                p,
                w,
                h,
                x,
                y,
                0,
                1,
            )) || (vacant_at(p, w, h, x, y, 1, 2) && vacant_at(p, w, h, x, y, 1, 0)));
            assert(is_sharp == sharp(p@, w as int, h as int, i as int));
            let v = if is_sharp {
                None
            } else {
                p[i]
            };
            out.push(v);
            x = x + 1;
        }
        y = y + 1;
    }
    proof {
        assert(h * w == w * h) by (nonlinear_arith);
        assert(out@ =~= want);
    }
    out
}

/// The cells that belong to some pool.
pub open spec fn pool_mask(p: Seq<Option<usize>>) -> Seq<bool> {
    Seq::new(p.len(), |i: int| p[i].is_some())
}

/// Pool cells whose connected pool, under `labels`, has fewer than `min` cells leave it.
pub open spec fn without_small(p: Seq<Option<usize>>, labels: Seq<Option<usize>>, min: int) -> Seq<
    Option<usize>,
> {
    Seq::new(
        p.len(),
        |i: int|
            if p[i].is_some() && count_of(labels, labels[i]) < min {
                None
            } else {
                p[i]
            },
    )
}

/// Removes every 4-connected group of pool cells with fewer than `min` cells.
pub fn remove_small_pools(p: &Vec<Option<usize>>, w: usize, h: usize, min: usize) -> (r: Vec<
    Option<usize>,
>)
    requires
        dims_ok(w as int, h as int),
        p@.len() == w * h,
    ensures
        exists|labels: Seq<Option<usize>>, c: int|
            is_labelling(pool_mask(p@), w as int, labels, c) && r@ == without_small(
                p@,
                labels,
                min as int,
            ),
{
    let mut mask: Vec<bool> = Vec::new();
    let mut i: usize = 0;
    while i < p.len()
        invariant
            i <= p@.len(),
            mask@.len() == i,
            forall|j: int| 0 <= j < i ==> #[trigger] mask@[j] == p@[j].is_some(),
        decreases p@.len() - i,
    {
        mask.push(p[i].is_some());
        i = i + 1;
    }
    assert(mask@ =~= pool_mask(p@));
    let (labels, count) = label_regions(&mask, w);
    let sizes = region_sizes(&labels, count);
    let ghost want = without_small(p@, labels@, min as int);
    let mut out: Vec<Option<usize>> = Vec::new();
    let mut i: usize = 0;
    while i < p.len()
        invariant
            i <= p@.len(),
            want == without_small(p@, labels@, min as int),
            is_labelling(mask@, w as int, labels@, count as int),
            mask@ == pool_mask(p@),
            sizes@.len() == count,
            forall|l: int| 0 <= l < count ==> #[trigger] sizes@[l] == count_of(labels@, Some(l as usize)),
            out@.len() == i,
            forall|j: int| 0 <= j < i ==> #[trigger] out@[j] == want[j],
        decreases p@.len() - i,
    {
        let v = match labels[i] {
            Some(l) => {
                if sizes[l] < min {
                    None
                } else {
                    p[i]
                }
            },
            None => p[i],
        };
        out.push(v);
        i = i + 1;
    }
    assert(out@ =~= want);
    out
}

/// The terrain left by the pools: closed cells are walls, open cells in a
/// pool are pool, the other open cells are floor.
pub open spec fn terrain(open: Seq<bool>, pools: Seq<Option<usize>>) -> Seq<SewerCell> {
    Seq::new(
        open.len(),
        |i: int|
            if !open[i] {
                SewerCell::Wall
            } else if pools[i].is_some() {
                SewerCell::Pool
            } else {
                SewerCell::Floor
            },
    )
}

pub fn add_pools(open: &Vec<bool>, pools: &Vec<Option<usize>>) -> (r: Vec<SewerCell>)
    requires
        pools@.len() == open@.len(),
    ensures
        r@ == terrain(open@, pools@),
{
    let ghost want = terrain(open@, pools@);
    let mut out: Vec<SewerCell> = Vec::new();
    let mut i: usize = 0;
    while i < open.len()
        invariant
            i <= open@.len(),
            pools@.len() == open@.len(),
            want == terrain(open@, pools@),
            out@.len() == i,
            forall|j: int| 0 <= j < i ==> #[trigger] out@[j] == want[j],
        decreases open@.len() - i,
    {
        let v = if !open[i] {
            SewerCell::Wall
        } else if pools[i].is_some() {
            SewerCell::Pool
        } else {
            SewerCell::Floor
        };
        out.push(v);
        i = i + 1;
    }
    assert(out@ =~= want);
    out
}

/// Floor on the outer ring turns to wall; every other cell stays.
pub open spec fn walled(m: Seq<SewerCell>, w: int, h: int) -> Seq<SewerCell> {
    Seq::new(
        m.len(),
        |i: int|
            if on_border(w, h, i) && m[i] == SewerCell::Floor {
                SewerCell::Wall
            } else {
                m[i]
            },
    )
}

/// Stamps a wall ring round the grid: a floor cell on the border becomes
/// wall, a pool cell there stays pool.
pub fn add_outer_wall(m: &Vec<SewerCell>, w: usize, h: usize) -> (r: Vec<SewerCell>)
    requires
        dims_ok(w as int, h as int),
        m@.len() == w * h,
    ensures
        r@ == walled(m@, w as int, h as int),
{
    let ghost want = walled(m@, w as int, h as int);
    let mut out: Vec<SewerCell> = Vec::new();
    let mut y: usize = 0;
    while y < h
        invariant
            dims_ok(w as int, h as int),
            m@.len() == w * h,
            want == walled(m@, w as int, h as int),
            y <= h,
            out@.len() == y * w,
            forall|j: int| 0 <= j < out@.len() ==> out@[j] == #[trigger] want[j],
        decreases h - y,
    {
        let mut x: usize = 0;
        proof {
            lemma_cell(w as int, h as int, 0, y as int);
        }
        while x < w
            invariant
                dims_ok(w as int, h as int),
                m@.len() == w * h,
                want == walled(m@, w as int, h as int),
                y < h,
                x <= w,
                out@.len() == y * w + x,
                forall|j: int| 0 <= j < out@.len() ==> out@[j] == #[trigger] want[j],
            decreases w - x,
        {
            proof {
                lemma_cell(w as int, h as int, x as int, y as int);
            }
            let i = y * w + x;
            let border = y == 0 || y == h - 1 || x == 0 || x == w - 1;
            let v = if border && m[i] == SewerCell::Floor {
                SewerCell::Wall
            } else {
                m[i]
            };
            out.push(v);
            x = x + 1;
        }
        y = y + 1;
    }
    proof {
        assert(h * w == w * h) by (nonlinear_arith);
        assert(out@ =~= want);
    }
    out
}

/// A floor cell with walls on both sides along one axis.
pub open spec fn boring(m: Seq<SewerCell>, w: int, h: int, i: int) -> bool {
    m[i] == SewerCell::Floor && ((offset(m, w, h, i, 1, 0) == Some(SewerCell::Wall) && offset(
        m,
        w,
        h,
        i,
        -1,
        0,
    ) == Some(SewerCell::Wall)) || (offset(m, w, h, i, 0, 1) == Some(SewerCell::Wall) && offset(
        m,
        w,
        h,
        i,
        0,
        -1,
    ) == Some(SewerCell::Wall)))
}

/// One pass of corridor removal: every boring floor cell becomes wall at once.
pub open spec fn unbored(m: Seq<SewerCell>, w: int, h: int) -> Seq<SewerCell> {
    Seq::new(
        m.len(),
        |i: int|
            if boring(m, w, h, i) {
                SewerCell::Wall
            } else {
                m[i]
            },
    )
}

/// `k` passes of corridor removal.
pub open spec fn unbored_times(m: Seq<SewerCell>, w: int, h: int, k: nat) -> Seq<SewerCell>
    decreases k,
{
    if k == 0 {
        m
    } else {
        unbored(unbored_times(m, w, h, (k - 1) as nat), w, h)
    }
}

pub open spec fn count_floor(m: Seq<SewerCell>) -> nat
    decreases m.len(),
{
    if m.len() == 0 {
        0
    } else {
        count_floor(m.drop_last()) + if m.last() == SewerCell::Floor {
            1nat
        } else {
            0nat
        }
    }
}

proof fn lemma_fewer_floor(a: Seq<SewerCell>, b: Seq<SewerCell>, k: int)
    requires
        a.len() == b.len(),
        forall|i: int| 0 <= i < b.len() && b[i] == SewerCell::Floor ==> a[i] == SewerCell::Floor,
        0 <= k < a.len(),
        a[k] == SewerCell::Floor,
        b[k] != SewerCell::Floor,
    ensures
        count_floor(b) < count_floor(a),
    decreases a.len(),
{
    if k == a.len() - 1 {
        lemma_floor_le(a.drop_last(), b.drop_last());
    } else {
        lemma_fewer_floor(a.drop_last(), b.drop_last(), k);
    }
}

proof fn lemma_floor_le(a: Seq<SewerCell>, b: Seq<SewerCell>)
    requires
        a.len() == b.len(),
        forall|i: int| 0 <= i < b.len() && b[i] == SewerCell::Floor ==> a[i] == SewerCell::Floor,
    ensures
        count_floor(b) <= count_floor(a),
    decreases a.len(),
{
    if a.len() > 0 {
        lemma_floor_le(a.drop_last(), b.drop_last());
    }
}

fn wall_at(m: &Vec<SewerCell>, w: usize, h: usize, x: usize, y: usize, dx: usize, dy: usize) -> (r:
    bool)
    requires
        dims_ok(w as int, h as int),
        m@.len() == w * h,
        x < w,
        y < h,
        dx <= 2,
        dy <= 2,
    ensures
        r == (offset(m@, w as int, h as int, y * w + x, dx - 1, dy - 1) == Some(SewerCell::Wall)),
{
    match get_offset(m, w, h, x, y, dx, dy) {
        Some(c) => c == SewerCell::Wall,
        None => false,
    }
}

/// One pass of corridor removal; also says whether any cell changed.
pub fn remove_boring_space_step(m: &Vec<SewerCell>, w: usize, h: usize) -> (r: (
    Vec<SewerCell>,
    bool,
))
    requires
        dims_ok(w as int, h as int),
        m@.len() == w * h,
    ensures
        r.0@ == unbored(m@, w as int, h as int),
        r.1 == (r.0@ != m@),
{
    let ghost want = unbored(m@, w as int, h as int);
    let mut out: Vec<SewerCell> = Vec::new();
    let mut changed = false;
    let mut y: usize = 0;
    while y < h
        invariant
            dims_ok(w as int, h as int),
            m@.len() == w * h,
            want == unbored(m@, w as int, h as int),
            y <= h,
            out@.len() == y * w,
            forall|j: int| 0 <= j < out@.len() ==> out@[j] == #[trigger] want[j],
            changed == exists|j: int| 0 <= j < out@.len() && #[trigger] want[j] != m@[j],
        decreases h - y,
    {
        let mut x: usize = 0;
        proof {
            lemma_cell(w as int, h as int, 0, y as int);
        }
        while x < w
            invariant
                dims_ok(w as int, h as int),
                m@.len() == w * h,
                want == unbored(m@, w as int, h as int),
                y < h,
                x <= w,
                out@.len() == y * w + x,
                forall|j: int| 0 <= j < out@.len() ==> out@[j] == #[trigger] want[j],
                changed == exists|j: int| 0 <= j < out@.len() && #[trigger] want[j] != m@[j],
            decreases w - x,
        {
            proof {
                lemma_cell(w as int, h as int, x as int, y as int);
            }
            let i = y * w + x;
            let bore = m[i] == SewerCell::Floor && ((wall_at(m, w, h, x, y, 2, 1) && wall_at(
                m,
                w,
                h,
                x,
                y,
                0,
                1,
            )) || (wall_at(m, w, h, x, y, 1, 2) && wall_at(m, w, h, x, y, 1, 0)));
            assert(bore == boring(m@, w as int, h as int, i as int));
            let ghost before = changed;
            if bore {
                out.push(SewerCell::Wall);
                changed = true;
                assert(want[i as int] != m@[i as int]);
            } else {
                out.push(m[i]);
                assert(want[i as int] == m@[i as int]);
                proof {
                    if before {
                        let q = choose|q: int| 0 <= q < i && #[trigger] want[q] != m@[q];
                        assert(0 <= q < out@.len() && want[q] != m@[q]);
                    }
                }
            }
            x = x + 1;
        }
        y = y + 1;
    }
    proof {
        assert(h * w == w * h) by (nonlinear_arith);
        assert(out@ =~= want);
        if !changed {
            assert(out@ =~= m@);
        }
    }
    (out, changed)
}

/// Turns boring floor cells into wall, pass after pass, until a pass changes
/// nothing.
pub fn remove_boring_space(m: Vec<SewerCell>, w: usize, h: usize) -> (r: Vec<SewerCell>)
    requires
        dims_ok(w as int, h as int),
        m@.len() == w * h,
    ensures
        exists|k: nat| r@ == unbored_times(m@, w as int, h as int, k),
        unbored(r@, w as int, h as int) == r@,
{
    let ghost m0 = m@;
    let ghost mut k: nat = 0;
    let mut cur = m;
    let mut done = false;
    while !done
        invariant
            dims_ok(w as int, h as int),
            cur@.len() == w * h,
            cur@ == unbored_times(m0, w as int, h as int, k),
            done ==> unbored(cur@, w as int, h as int) == cur@,
        decreases count_floor(cur@) + if done {
            0nat
        } else {
            1nat
        },
    {
        let (next, changed) = remove_boring_space_step(&cur, w, h);
        if changed {
            proof {
                let a = cur@;
                let b = next@;
                if forall|i: int| 0 <= i < a.len() ==> a[i] == b[i] {
                    assert(a =~= b);
                }
                let q = choose|q: int| 0 <= q < a.len() && a[q] != b[q];
                lemma_fewer_floor(a, b, q);
                k = k + 1;
            }
            cur = next;
        } else {
            done = true;
        }
    }
    cur
}

} // verus!
