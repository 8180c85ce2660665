use crate::candidates::{bridge_ok, door_ok, spans_bodies, splits_rooms, BridgeCandidate, DoorCandidate};
use crate::flood::{count_of, is_labelling, label_regions, region_sizes};
use crate::grid::{adjacent, closed, connected, dims_ok, get_offset, lemma_cell, offset};
use crate::level::SewerCell;
use crate::outside::random_below;
use crate::regions::not_wall;
use crate::select::door_cell;
use rand_isaac::Isaac64Rng;
use vstd::prelude::*;

verus! {

/// Every cell of `m` is the terrain cell of `t`, or a bridge over a pool cell
/// of `t` between two pool bodies, or a door in a wall cell of `t` between
/// two rooms.
pub open spec fn painted_over(m: Seq<SewerCell>, t: Seq<SewerCell>, w: int, h: int) -> bool {
    &&& m.len() == t.len()
    &&& forall|i: int|
        0 <= i < m.len() ==> {
            ||| #[trigger] m[i] == t[i]
            ||| (m[i] == SewerCell::Bridge && t[i] == SewerCell::Pool && spans_bodies(t, w, h, i))
            ||| (m[i] == SewerCell::Door && t[i] == SewerCell::Wall && splits_rooms(t, w, h, i))
        }
}

/// Paints every kept bridge candidate onto the map.
pub fn paint_bridges(
    m: &mut Vec<SewerCell>,
    cs: &Vec<BridgeCandidate>,
    keep: &Vec<bool>,
    w: usize,
    h: usize,
    t: &Vec<SewerCell>,
)
    requires
        painted_over(old(m)@, t@, w as int, h as int),
        keep@.len() == cs@.len(),
        forall|k: int| 0 <= k < cs@.len() ==> bridge_ok(t@, w as int, h as int, #[trigger] cs@[k]),
    ensures
        painted_over(final(m)@, t@, w as int, h as int),
        forall|k: int, q: int|
            0 <= k < cs@.len() && keep@[k] && 0 <= q < cs@[k].coords@.len() ==> final(m)@[#[trigger] cs@[k].coords@[q] as int]
                == SewerCell::Bridge,
{
    let ghost t = t@;
    let mut k: usize = 0;
    while k < cs.len()
        invariant
            k <= cs@.len(),
            painted_over(m@, t, w as int, h as int),
            keep@.len() == cs@.len(),
            forall|k: int| 0 <= k < cs@.len() ==> bridge_ok(t, w as int, h as int, #[trigger] cs@[k]),
            forall|kk: int, q: int|
                0 <= kk < k && keep@[kk] && 0 <= q < cs@[kk].coords@.len() ==> m@[#[trigger] cs@[kk].coords@[q] as int]
                    == SewerCell::Bridge,
        decreases cs@.len() - k,
    {
        if keep[k] {
            let coords = &cs[k].coords;
            let mut q: usize = 0;
            while q < coords.len()
                invariant
                    k < cs@.len(),
                    coords == cs@[k as int].coords,
                    q <= coords@.len(),
                    painted_over(m@, t, w as int, h as int),
                    keep@.len() == cs@.len(),
                    forall|k: int| 0 <= k < cs@.len() ==> bridge_ok(t, w as int, h as int, #[trigger] cs@[k]),
                    forall|kk: int, q: int|
                        0 <= kk < k && keep@[kk] && 0 <= q < cs@[kk].coords@.len() ==> m@[#[trigger] cs@[kk].coords@[q] as int]
                            == SewerCell::Bridge,
                    forall|p: int| 0 <= p < q ==> m@[#[trigger] coords@[p] as int] == SewerCell::Bridge,
                decreases coords@.len() - q,
            {
                let i = coords[q];
                assert(0 <= coords@[q as int] < t.len());
                m.set(i, SewerCell::Bridge);
                q = q + 1;
            }
        }
        k = k + 1;
    }
}

/// Opens one door in each chosen door candidate, at a random cell away from
/// the ends of its run, in candidate order.
pub fn paint_doors(
    m: &mut Vec<SewerCell>,
    ds: &Vec<DoorCandidate>,
    chosen: &Vec<bool>,
    rng: &mut Isaac64Rng,
    w: usize,
    h: usize,
    t: &Vec<SewerCell>,
)
    requires
        painted_over(old(m)@, t@, w as int, h as int),
        chosen@.len() == ds@.len(),
        forall|k: int| 0 <= k < ds@.len() ==> door_ok(t@, w as int, h as int, #[trigger] ds@[k]),
    ensures
        painted_over(final(m)@, t@, w as int, h as int),
        forall|k: int|
            0 <= k < ds@.len() && #[trigger] chosen@[k] ==> exists|q: int|
                0 <= q < ds@[k].coords@.len() && final(m)@[ds@[k].coords@[q] as int]
                    == SewerCell::Door,
        final(m)@.len() == old(m)@.len(),
        forall|i: int|
            0 <= i < old(m)@.len() ==> #[trigger] final(m)@[i] == old(m)@[i] || final(m)@[i]
                == SewerCell::Door,
{
    let ghost m_start = m@;
    let ghost t = t@;
    let mut k: usize = 0;
    while k < ds.len()
        invariant
            k <= ds@.len(),
            painted_over(m@, t, w as int, h as int),
            chosen@.len() == ds@.len(),
            forall|k: int| 0 <= k < ds@.len() ==> door_ok(t, w as int, h as int, #[trigger] ds@[k]),
            forall|kk: int|
                0 <= kk < k && #[trigger] chosen@[kk] ==> exists|q: int|
                    0 <= q < ds@[kk].coords@.len() && m@[ds@[kk].coords@[q] as int]
                        == SewerCell::Door,
            m@.len() == m_start.len(),
            forall|i: int|
                0 <= i < m_start.len() ==> #[trigger] m@[i] == m_start[i] || m@[i] == SewerCell::Door,
        decreases ds@.len() - k,
    {
        let ghost m0 = m@;
        if chosen[k] {
            let i = door_cell(&ds[k], rng);
            proof {
                let q = choose|q: int|
                    crate::select::door_lo(ds@[k as int].coords@.len() as int) <= q
                        < crate::select::door_hi(ds@[k as int].coords@.len() as int) && i
                        == ds@[k as int].coords@[q];
                assert(0 <= ds@[k as int].coords@[q] < t.len());
            }
            m.set(i, SewerCell::Door);
            proof {
                let q = choose|q: int|
                    crate::select::door_lo(ds@[k as int].coords@.len() as int) <= q
                        < crate::select::door_hi(ds@[k as int].coords@.len() as int) && i
                        == ds@[k as int].coords@[q];
                assert(m@[ds@[k as int].coords@[q] as int] == SewerCell::Door);
            }
        }
        proof {
            assert forall|kk: int|
                0 <= kk < k + 1 && #[trigger] chosen@[kk] implies exists|q: int|
                    0 <= q < ds@[kk].coords@.len() && m@[ds@[kk].coords@[q] as int]
                        == SewerCell::Door by {
                if kk < k {
                    let q = choose|q: int|
                        0 <= q < ds@[kk].coords@.len() && m0[ds@[kk].coords@[q] as int]
                            == SewerCell::Door;
                    assert(m@[ds@[kk].coords@[q] as int] == SewerCell::Door);
                }
            }
        }
        k = k + 1;
    }
}

/// Every non-wall cell outside the component labelled `l` becomes wall.
pub open spec fn keep_component(m: Seq<SewerCell>, labels: Seq<Option<usize>>, l: usize) -> Seq<
    SewerCell,
> {
    Seq::new(
        m.len(),
        |i: int|
            if m[i] != SewerCell::Wall && labels[i] != Some(l) {
                SewerCell::Wall
            } else {
                m[i]
            },
    )
}

/// Label `l` is the last of the largest components of `labels`.
pub open spec fn last_largest(labels: Seq<Option<usize>>, c: int, l: int) -> bool {
    &&& 0 <= l < c
    &&& forall|l2: int|
        0 <= l2 < c ==> #[trigger] count_of(labels, Some(l2 as usize)) <= count_of(
            labels,
            Some(l as usize),
        )
    &&& forall|l2: int|
        l < l2 < c ==> #[trigger] count_of(labels, Some(l2 as usize)) < count_of(
            labels,
            Some(l as usize),
        )
}

/// Walls in every connected area of non-wall cells but the largest (the last
/// one met in a row-by-row scan, among equals).
#[verifier::rlimit(80)]
pub fn ensure_single_connected_area(m: &Vec<SewerCell>, w: usize, h: usize) -> (r: Vec<SewerCell>)
    requires
        dims_ok(w as int, h as int),
        m@.len() == w * h,
    ensures
        exists|labels: Seq<Option<usize>>, c: int, l: usize|
            #![trigger is_labelling(not_wall(m@), w as int, labels, c), keep_component(m@, labels, l)]
            is_labelling(not_wall(m@), w as int, labels, c) && (c == 0 || last_largest(
                labels,
                c,
                l as int,
            )) && r@ == keep_component(m@, labels, l),
{
    let mut pass: Vec<bool> = Vec::new();
    let mut i: usize = 0;
    while i < m.len()
        invariant
            i <= m@.len(),
            pass@.len() == i,
            forall|j: int| 0 <= j < i ==> #[trigger] pass@[j] == (m@[j] != SewerCell::Wall),
        decreases m@.len() - i,
    {
        pass.push(m[i] != SewerCell::Wall);
        i = i + 1;
    }
    assert(pass@ =~= not_wall(m@));
    let (labels, count) = label_regions(&pass, w);
    let sizes = region_sizes(&labels, count);
    let mut best: usize = 0;
    let mut l: usize = 1;
    while l < count
        invariant
            sizes@.len() == count,
            1 <= l,
            count > 0 ==> l <= count,
            count > 0 ==> best < l,
            count > 0 ==> forall|q: int| 0 <= q < l ==> #[trigger] sizes@[q] <= sizes@[best as int],
            count > 0 ==> forall|q: int| best < q < l ==> #[trigger] sizes@[q] < sizes@[best as int],
            forall|q: int| 0 <= q < count ==> #[trigger] sizes@[q] == count_of(labels@, Some(q as usize)),
        decreases count - l,
    {
        if sizes[l] >= sizes[best] {
            best = l;
        }
        l = l + 1;
    }
    let ghost want = keep_component(m@, labels@, best);
    let mut out: Vec<SewerCell> = Vec::new();
    let mut i: usize = 0;
    while i < m.len()
        invariant
            i <= m@.len(),
            labels@.len() == m@.len(),
            want == keep_component(m@, labels@, best),
            out@.len() == i,
            forall|j: int| 0 <= j < i ==> #[trigger] out@[j] == want[j],
        decreases m@.len() - i,
    {
        let keep = match labels[i] {
            Some(q) => q == best,
            None => false,
        };
        if m[i] != SewerCell::Wall && !keep {
            out.push(SewerCell::Wall);
        } else {
            out.push(m[i]);
        }
        i = i + 1;
    }
    assert(out@ =~= want);
    proof {
        if count > 0 {
            assert forall|l2: int| 0 <= l2 < count implies #[trigger] count_of(labels@, Some(l2 as usize))
                <= count_of(labels@, Some(best)) by {
                assert(sizes@[l2] <= sizes@[best as int]);
            }
            assert forall|l2: int| best < l2 < count implies #[trigger] count_of(labels@, Some(l2 as usize))
                < count_of(labels@, Some(best)) by {
                assert(sizes@[l2] < sizes@[best as int]);
            }
            assert(last_largest(labels@, count as int, best as int));
        }
        assert(is_labelling(not_wall(m@), w as int, labels@, count as int) && (count == 0 || last_largest(
            labels@,
            count as int,
            best as int,
        )) && out@ == keep_component(m@, labels@, best));
    }
    out
}

/// Keeping only one component leaves the kept cells connected to one another.
#[verifier::rlimit(80)]
pub proof fn lemma_kept_connected(
    m: Seq<SewerCell>,
    w: int,
    labels: Seq<Option<usize>>,
    c: int,
    l: usize,
    a: int,
    b: int,
)
    requires
        w > 0,
        is_labelling(not_wall(m), w, labels, c),
        0 <= a < m.len(),
        0 <= b < m.len(),
        keep_component(m, labels, l)[a] != SewerCell::Wall,
        keep_component(m, labels, l)[b] != SewerCell::Wall,
    ensures
        connected(not_wall(keep_component(m, labels, l)), w, a, b),
{
    let r = keep_component(m, labels, l);
    let pm = not_wall(m);
    let pr = not_wall(r);
    let n = m.len() as int;
    assert(labels[a] == Some(l) && labels[b] == Some(l));
    assert(pm[a] && pm[b]);
    assert(connected(pm, w, a, b));
    assert forall|s: Set<int>| #[trigger] closed(pr, w, s) && s.contains(a) implies s.contains(b) by {
        let t = s.union(Set::new(|i: int| 0 <= i < n && pm[i] && labels[i] != Some(l)));
        assert forall|x: int, y: int|
            #![trigger t.contains(x), adjacent(w, pm.len() as int, x, y)]
            t.contains(x) && adjacent(w, pm.len() as int, x, y) && pm[y] implies t.contains(y) by {
            if labels[y] == Some(l) {
                assert(pr[y]);
                if s.contains(x) {
                    assert(adjacent(w, pr.len() as int, x, y));
                } else {
                    assert(pm[x]);
                    assert(connected(pm, w, x, y)) by {
                        assert forall|u: Set<int>| #[trigger] closed(pm, w, u) && u.contains(x) implies u.contains(
                            y,
                        ) by {}
                    }
                    assert(labels[x] == labels[y]);
                }
            }
        }
        assert(closed(pm, w, t));
        assert(t.contains(a));
        assert(t.contains(b));
    }
}

/// A floor cell whose four neighbours lie in the grid and are floor too.
pub open spec fn spawn_safe(m: Seq<SewerCell>, w: int, h: int, i: int) -> bool {
    &&& m[i] == SewerCell::Floor
    &&& offset(m, w, h, i, 1, 0) == Some(SewerCell::Floor)
    &&& offset(m, w, h, i, -1, 0) == Some(SewerCell::Floor)
    &&& offset(m, w, h, i, 0, 1) == Some(SewerCell::Floor)
    &&& offset(m, w, h, i, 0, -1) == Some(SewerCell::Floor)
}

fn floor_at(m: &Vec<SewerCell>, w: usize, h: usize, x: usize, y: usize, dx: usize, dy: usize) -> (r:
    bool)
    requires
        dims_ok(w as int, h as int),
        m@.len() == w * h,
        x < w,
        y < h,
        dx <= 2,
        dy <= 2,
    ensures
        r == (offset(m@, w as int, h as int, y * w + x, dx - 1, dy - 1) == Some(SewerCell::Floor)),
{
    match get_offset(m, w, h, x, y, dx, dy) {
        Some(c) => c == SewerCell::Floor,
        None => false,
    }
}

/// Every spawn-safe cell, in row-by-row order.
pub fn spawn_candidates(m: &Vec<SewerCell>, w: usize, h: usize) -> (r: Vec<usize>)
    requires
        dims_ok(w as int, h as int),
        m@.len() == w * h,
    ensures
        forall|q: int| 0 <= q < r@.len() ==> #[trigger] r@[q] < m@.len() && spawn_safe(m@, w as int, h as int, r@[q] as int),
        forall|i: int| 0 <= i < m@.len() && spawn_safe(m@, w as int, h as int, i) ==> r@.contains(i as usize),
        forall|p: int, q: int| 0 <= p < q < r@.len() ==> r@[p] < r@[q],
{
    let mut out: Vec<usize> = Vec::new();
    let mut y: usize = 0;
    while y < h
        invariant
            dims_ok(w as int, h as int),
            m@.len() == w * h,
            y <= h,
            forall|q: int| 0 <= q < out@.len() ==> #[trigger] out@[q] < y * w && spawn_safe(m@, w as int, h as int, out@[q] as int),
            forall|i: int| 0 <= i < y * w && spawn_safe(m@, w as int, h as int, i) ==> out@.contains(i as usize),
            forall|p: int, q: int| 0 <= p < q < out@.len() ==> out@[p] < out@[q],
        decreases h - y,
    {
        let mut x: usize = 0;
        proof {
            lemma_cell(w as int, h as int, 0, y as int);
        }
        while x < w
            invariant
                dims_ok(w as int, h as int),
                m@.len() == w * h,
                y < h,
                x <= w,
                forall|q: int| 0 <= q < out@.len() ==> #[trigger] out@[q] < y * w + x && spawn_safe(m@, w as int, h as int, out@[q] as int),
                forall|i: int| 0 <= i < y * w + x && spawn_safe(m@, w as int, h as int, i) ==> out@.contains(i as usize),
                forall|p: int, q: int| 0 <= p < q < out@.len() ==> out@[p] < out@[q],
            decreases w - x,
        {
            proof {
                lemma_cell(w as int, h as int, x as int, y as int);
            }
            let i = y * w + x;
            let safe = m[i] == SewerCell::Floor && floor_at(m, w, h, x, y, 2, 1) && floor_at(
                m,
                w,
                h,
                x,
                y,
                0,
                1,
            ) && floor_at(m, w, h, x, y, 1, 2) && floor_at(m, w, h, x, y, 1, 0);
            if safe {
                let ghost o = out@;
                out.push(i);
                proof {
                    assert forall|j: int| 0 <= j < i + 1 && spawn_safe(m@, w as int, h as int, j) implies out@.contains(j as usize) by {
                        if j < i {
                            let q = choose|q: int| 0 <= q < o.len() && o[q] == j as usize;
                            assert(out@[q] == j as usize);
                        } else {
                            assert(out@[o.len() as int] == j as usize);
                        }
                    }
                }
            }
            x = x + 1;
        }
        y = y + 1;
    }
    proof {
        assert(h * w == w * h) by (nonlinear_arith);
    }
    out
}

/// A pool cell next to a floor cell or to the edge of the grid.
pub open spec fn pool_edge(m: Seq<SewerCell>, w: int, h: int, i: int) -> bool {
    m[i] == SewerCell::Pool && (open_or_out(m, w, h, i, 1, 0) || open_or_out(m, w, h, i, -1, 0)
        || open_or_out(m, w, h, i, 0, 1) || open_or_out(m, w, h, i, 0, -1))
}

pub open spec fn open_or_out(m: Seq<SewerCell>, w: int, h: int, i: int, dx: int, dy: int) -> bool {
    match offset(m, w, h, i, dx, dy) {
        Some(c) => c == SewerCell::Floor,
        None => true,
    }
}

fn open_or_out_at(
    m: &Vec<SewerCell>,
    w: usize,
    h: usize,
    x: usize,
    y: usize,
    dx: usize,
    dy: usize,
) -> (r: bool)
    requires
        dims_ok(w as int, h as int),
        m@.len() == w * h,
        x < w,
        y < h,
        dx <= 2,
        dy <= 2,
    ensures
        r == open_or_out(m@, w as int, h as int, y * w + x, dx - 1, dy - 1),
{
    match get_offset(m, w, h, x, y, dx, dy) {
        Some(c) => c == SewerCell::Floor,
        None => true,
    }
}

/// A pool cell lights up when its draw is zero or when it lies next to floor
/// or to the edge of the grid.
pub open spec fn lit_by(m: Seq<SewerCell>, w: int, h: int, draws: Seq<usize>, i: int) -> bool {
    m[i] == SewerCell::Pool && (draws[i] == 0 || pool_edge(m, w, h, i))
}

/// `lights` are exactly the cells that `draws`, each below twenty, light.
pub open spec fn lit_exactly(m: Seq<SewerCell>, w: int, h: int, draws: Seq<usize>, lights: Seq<usize>) -> bool {
    &&& draws.len() == m.len()
    &&& forall|i: int| 0 <= i < draws.len() ==> #[trigger] draws[i] < 20
    &&& forall|q: int| 0 <= q < lights.len() ==> #[trigger] lit_by(m, w, h, draws, lights[q] as int)
    &&& forall|i: int| 0 <= i < m.len() && #[trigger] lit_by(m, w, h, draws, i) ==> lights.contains(i as usize)
}

/// The pool cells that `draws` lights, in row-by-row order.
pub fn lights_from_draws(m: &Vec<SewerCell>, w: usize, h: usize, draws: &Vec<usize>) -> (r: Vec<usize>)
    requires
        dims_ok(w as int, h as int),
        m@.len() == w * h,
        draws@.len() == m@.len(),
    ensures
        forall|q: int| 0 <= q < r@.len() ==> #[trigger] r@[q] < m@.len() && lit_by(m@, w as int, h as int, draws@, r@[q] as int),
        forall|i: int| 0 <= i < m@.len() && lit_by(m@, w as int, h as int, draws@, i) ==> r@.contains(i as usize),
        forall|p: int, q: int| 0 <= p < q < r@.len() ==> r@[p] < r@[q],
{
    let mut out: Vec<usize> = Vec::new();
    let mut y: usize = 0;
    while y < h
        invariant
            dims_ok(w as int, h as int),
            m@.len() == w * h,
            draws@.len() == m@.len(),
            y <= h,
            forall|q: int| 0 <= q < out@.len() ==> #[trigger] out@[q] < y * w && lit_by(m@, w as int, h as int, draws@, out@[q] as int),
            forall|i: int| 0 <= i < y * w && lit_by(m@, w as int, h as int, draws@, i) ==> out@.contains(i as usize),
            forall|p: int, q: int| 0 <= p < q < out@.len() ==> out@[p] < out@[q],
        decreases h - y,
    {
        let mut x: usize = 0;
        proof {
            lemma_cell(w as int, h as int, 0, y as int);
        }
        while x < w
            invariant
                dims_ok(w as int, h as int),
                m@.len() == w * h,
                draws@.len() == m@.len(),
                y < h,
                x <= w,
                forall|q: int| 0 <= q < out@.len() ==> #[trigger] out@[q] < y * w + x && lit_by(m@, w as int, h as int, draws@, out@[q] as int),
                forall|i: int| 0 <= i < y * w + x && lit_by(m@, w as int, h as int, draws@, i) ==> out@.contains(i as usize),
                forall|p: int, q: int| 0 <= p < q < out@.len() ==> out@[p] < out@[q],
            decreases w - x,
        {
            proof {
                lemma_cell(w as int, h as int, x as int, y as int);
            }
            let i = y * w + x;
            if m[i] == SewerCell::Pool {
                let roll = draws[i];
                let edge = open_or_out_at(m, w, h, x, y, 2, 1) || open_or_out_at(m, w, h, x, y, 0, 1)
                    || open_or_out_at(m, w, h, x, y, 1, 2) || open_or_out_at(m, w, h, x, y, 1, 0);
                if roll == 0 || edge {
                    let ghost o = out@;
                    out.push(i);
                    proof {
                        assert forall|j: int| 0 <= j < i + 1 && lit_by(m@, w as int, h as int, draws@, j) implies out@.contains(j as usize) by {
                            if j < i {
                                let q = choose|q: int| 0 <= q < o.len() && o[q] == j as usize;
                                assert(out@[q] == j as usize);
                            } else {
                                assert(out@[o.len() as int] == j as usize);
                            }
                        }
                    }
                }
            }
            x = x + 1;
        }
        y = y + 1;
    }
    proof {
        assert(h * w == w * h) by (nonlinear_arith);
    }
    out
}

/// Pool cells that carry a light, in row-by-row order: each pool cell next
/// to floor or to the edge, and each other pool cell whose draw out of
/// twenty comes up zero (one draw per pool cell, in row-by-row order).
pub fn pool_lights(m: &Vec<SewerCell>, w: usize, h: usize, rng: &mut Isaac64Rng) -> (r: Vec<usize>)
    requires
        dims_ok(w as int, h as int),
        m@.len() == w * h,
    ensures
        forall|q: int| 0 <= q < r@.len() ==> #[trigger] r@[q] < m@.len() && m@[r@[q] as int] == SewerCell::Pool,
        forall|i: int| 0 <= i < m@.len() && pool_edge(m@, w as int, h as int, i) ==> r@.contains(i as usize),
        forall|p: int, q: int| 0 <= p < q < r@.len() ==> r@[p] < r@[q],
        exists|draws: Seq<usize>| #[trigger] lit_exactly(m@, w as int, h as int, draws, r@),
{
    let mut draws: Vec<usize> = Vec::new();
    let mut i: usize = 0;
    while i < m.len()
        invariant
            i <= m@.len(),
            draws@.len() == i,
            forall|j: int| 0 <= j < i ==> #[trigger] draws@[j] < 20,
        decreases m@.len() - i,
    {
        if m[i] == SewerCell::Pool {
            draws.push(random_below(rng, 0, 20));
        } else {
            draws.push(1);
        }
        i = i + 1;
    }
    let r = lights_from_draws(m, w, h, &draws);
    assert(lit_exactly(m@, w as int, h as int, draws@, r@));
    assert forall|i: int| 0 <= i < m@.len() && pool_edge(m@, w as int, h as int, i) implies r@.contains(i as usize) by {
        assert(lit_by(m@, w as int, h as int, draws@, i));
    }
    assert forall|q: int| 0 <= q < r@.len() implies #[trigger] r@[q] < m@.len() && m@[r@[q] as int] == SewerCell::Pool by {
        assert(lit_by(m@, w as int, h as int, draws@, r@[q] as int));
    }
    r
}

} // verus!
