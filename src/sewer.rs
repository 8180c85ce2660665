use crate::assemble::{
    last_largest, painted_over,
    ensure_single_connected_area, keep_component, lemma_kept_connected, paint_bridges, paint_doors,
    pool_edge, pool_lights, spawn_candidates, spawn_safe,
};
use crate::candidates::{
    bridge_ok, door_ok, BridgeCandidate, DoorCandidate,
    apart_bodies, bridge_candidates_axis, door_candidates_axis, spans_bodies, splits_rooms,
};
use crate::carve::{
    add_outer_wall, add_pools, pool_mask, remove_boring_space, remove_sharp_edges,
    remove_small_pools, shrink_pool_by, shrunk, terrain, unbored, unbored_times, unsharpened,
    walled, without_small,
};
use crate::flood::{is_labelling, label_regions, scan_ordered};
use crate::grid::{
    cell, connected, dims_ok, lemma_cell, lemma_coords, on_border, window_from_example, MAX_SIDE,
};
use crate::level::{Coord, Grid, Sewer, SewerCell, SewerLight, SewerLightType, SewerSpec};
use crate::outside::{choose_from, random_below, shuffle, sort_pairs, synthesize};
use crate::regions::{classify_floor, is_classification, is_terrain, not_wall, Classified};
use crate::select::{bridge_kept, choose_doors, doors_chosen, prune_bridges};
use rand_isaac::Isaac64Rng;
use vstd::prelude::*;

verus! {

/// Side of the square example bitmap that the synthesizer imitates.
pub const EXAMPLE_SIDE: u32 = 32;

/// Side of the square windows that the synthesized pattern copies from the example.
pub const PATTERN_SIDE: u32 = 3;

/// The example bitmap as open (`true`) and closed cells, row by row.
pub open spec fn example_grid() -> Seq<bool> {
    Seq::new(1024, |i: int| (example_spec()[i / 32] >> ((i % 32) as u32)) & 1 == 0)
}

/// Fewest cells a pool may keep once carved.
pub const MIN_POOL_SIZE: usize = 8;

/// How many times sharp pool edges are trimmed.
pub const SHARP_EDGE_PASSES: usize = 3;

/// The rows of the example bitmap, one word per row.
pub open spec fn example_spec() -> Seq<u32> {
    seq![
        0x00000000u32,
        0x00000000u32,
        0x00000000u32,
        0x1fffffffu32,
        0x10000001u32,
        0x10000001u32,
        0x10000001u32,
        0x10000001u32,
        0x1001c001u32,
        0x100f7001u32,
        0x10381c01u32,
        0x10600601u32,
        0x10400301u32,
        0x10400101u32,
        0x10400181u32,
        0x106000c3u32,
        0x10200042u32,
        0x10200042u32,
        0x10300042u32,
        0x10100042u32,
        0x10100042u32,
        0x101800c2u32,
        0x10080082u32,
        0x10080182u32,
        0x10080302u32,
        0x10380602u32,
        0x1fe01c02u32,
        0x10007002u32,
        0x1000c002u32,
        0x10018002u32,
        0x10010002u32,
        0x1ffffffeu32,
        ]
}

/// The example bitmap, one word per row: bit `x` of a row is set where
/// column `x` is closed.
///
/// ```text
/// ................................
/// ................................
/// ................................
/// #############################...
/// #...........................#...
/// #...........................#...
/// #...........................#...
/// #...........................#...
/// #.............###...........#...
/// #...........###.####........#...
/// #.........###......###......#...
/// #........##..........##.....#...
/// #.......##............#.....#...
/// #.......#.............#.....#...
/// #......##.............#.....#...
/// ##....##.............##.....#...
/// .#....#..............#......#...
/// .#....#..............#......#...
/// .#....#.............##......#...
/// .#....#.............#.......#...
/// .#....#.............#.......#...
/// .#....##...........##.......#...
/// .#.....#...........#........#...
/// .#.....##..........#........#...
/// .#......##.........#........#...
/// .#.......##........###......#...
/// .#........###........########...
/// .#..........###.............#...
/// .#............##............#...
/// .#.............##...........#...
/// .#..............#...........#...
/// .############################...
/// ```
pub fn example_rows() -> (r: Vec<u32>)
    ensures
        r@ == example_spec(),
        r@.len() == EXAMPLE_SIDE,
{
    let r = vec![
        0x00000000u32,
        0x00000000,
        0x00000000,
        0x1fffffff,
        0x10000001,
        0x10000001,
        0x10000001,
        0x10000001,
        0x1001c001,
        0x100f7001,
        0x10381c01,
        0x10600601,
        0x10400301,
        0x10400101,
        0x10400181,
        0x106000c3,
        0x10200042,
        0x10200042,
        0x10300042,
        0x10100042,
        0x10100042,
        0x101800c2,
        0x10080082,
        0x10080182,
        0x10080302,
        0x10380602,
        0x1fe01c02,
        0x10007002,
        0x1000c002,
        0x10018002,
        0x10010002,
        0x1ffffffe,
    ];
    assert(r@ =~= example_spec());
    r
}

/// The example bitmap as open (`true`) and closed cells, row by row.
pub fn example_cells() -> (r: Vec<bool>)
    ensures
        r@.len() == EXAMPLE_SIDE * EXAMPLE_SIDE,
        forall|x: int, y: int|
            0 <= x < 32 && 0 <= y < 32 ==> #[trigger] r@[y * 32 + x] == ((example_spec()[y] >> (
            x as u32)) & 1 == 0),
        r@ == example_grid(),
{
    let rows = example_rows();
    let mut out: Vec<bool> = Vec::new();
    let mut y: usize = 0;
    while y < rows.len()
        invariant
            rows@ == example_spec(),
            rows@.len() == EXAMPLE_SIDE,
            y <= rows@.len(),
            out@.len() == y * 32,
            forall|x: int, yy: int|
                0 <= x < 32 && 0 <= yy < y ==> #[trigger] out@[yy * 32 + x] == ((example_spec()[yy]
                    >> (x as u32)) & 1 == 0),
        decreases rows@.len() - y,
    {
        let row = rows[y];
        let mut x: u32 = 0;
        while x < 32
            invariant
                rows@ == example_spec(),
                y < rows@.len(),
                row == example_spec()[y as int],
                x <= 32,
                out@.len() == y * 32 + x,
                forall|xx: int, yy: int|
                    0 <= xx < 32 && 0 <= yy < y ==> #[trigger] out@[yy * 32 + xx] == ((
                    example_spec()[yy] >> (xx as u32)) & 1 == 0),
                forall|xx: int| 0 <= xx < x ==> #[trigger] out@[y * 32 + xx] == ((row >> (xx as u32)) & 1
                    == 0),
            decreases 32 - x,
        {
            let ghost o = out@;
            out.push((row >> x) & 1 == 0);
            proof {
                assert forall|xx: int, yy: int|
                    0 <= xx < 32 && 0 <= yy < y implies #[trigger] out@[yy * 32 + xx] == ((
                    example_spec()[yy] >> (xx as u32)) & 1 == 0) by {
                    assert(yy * 32 + xx < y * 32) by (nonlinear_arith)
                        requires
                            0 <= xx < 32,
                            0 <= yy < y,
                    ;
                    assert(out@[yy * 32 + xx] == o[yy * 32 + xx]);
                }
                assert forall|xx: int| 0 <= xx < x + 1 implies #[trigger] out@[y * 32 + xx] == ((row
                    >> (xx as u32)) & 1 == 0) by {
                    if xx < x {
                        assert(out@[y * 32 + xx] == o[y * 32 + xx]);
                    }
                }
            }
            x = x + 1;
        }
        y = y + 1;
    }
    proof {
        assert forall|i: int| 0 <= i < 1024 implies #[trigger] out@[i] == example_grid()[i] by {
            let x = i % 32;
            let y = i / 32;
            assert(i == y * 32 + x);
            assert(out@[y * 32 + x] == ((example_spec()[y] >> (x as u32)) & 1 == 0));
        }
        assert(out@ =~= example_grid());
    }
    out
}

/// No floor cell lies on the outer ring.
pub open spec fn border_sealed(m: Seq<SewerCell>, w: int, h: int) -> bool {
    forall|i: int| 0 <= i < m.len() && on_border(w, h, i) ==> #[trigger] m[i] != SewerCell::Floor
}

proof fn lemma_unbored_keeps(m: Seq<SewerCell>, w: int, h: int, k: nat)
    requires
        is_terrain(m),
        border_sealed(m, w, h),
    ensures
        is_terrain(unbored_times(m, w, h, k)),
        border_sealed(unbored_times(m, w, h, k), w, h),
        unbored_times(m, w, h, k).len() == m.len(),
    decreases k,
{
    if k > 0 {
        lemma_unbored_keeps(m, w, h, (k - 1) as nat);
        let p = unbored_times(m, w, h, (k - 1) as nat);
        let q = unbored(p, w, h);
        assert forall|i: int| 0 <= i < q.len() implies #[trigger] q[i] == SewerCell::Wall || q[i]
            == SewerCell::Floor || q[i] == SewerCell::Pool by {
            assert(p[i] == SewerCell::Wall || p[i] == SewerCell::Floor || p[i] == SewerCell::Pool);
        }
    }
}

/// A bridge cell never lies on the border of a sealed terrain.
proof fn lemma_span_inner(t: Seq<SewerCell>, w: int, h: int, i: int)
    requires
        dims_ok(w, h),
        t.len() == w * h,
        border_sealed(t, w, h),
        0 <= i < t.len(),
        spans_bodies(t, w, h, i),
    ensures
        !on_border(w, h, i),
{
    lemma_coords(w, h, i);
    let x = i % w;
    let y = i / w;
    if exists|x1: int, x2: int|
        0 <= x1 < x && x < x2 < w && #[trigger] apart_bodies(t, w, cell(w, x1, y), cell(w, x2, y))
            && forall|q: int| x1 < q < x2 ==> #[trigger] t[cell(w, q, y)] == SewerCell::Pool {
        let (x1, x2) = choose|x1: int, x2: int|
            0 <= x1 < x && x < x2 < w && #[trigger] apart_bodies(t, w, cell(w, x1, y), cell(w, x2, y))
                && forall|q: int| x1 < q < x2 ==> #[trigger] t[cell(w, q, y)] == SewerCell::Pool;
        lemma_cell(w, h, x1, y);
        if y == 0 || y == h - 1 {
            assert(on_border(w, h, cell(w, x1, y)));
        }
    } else {
        let (y1, y2) = choose|y1: int, y2: int|
            0 <= y1 < y && y < y2 < h && #[trigger] apart_bodies(t, w, cell(w, x, y1), cell(w, x, y2))
                && forall|q: int| y1 < q < y2 ==> #[trigger] t[cell(w, x, q)] == SewerCell::Pool;
        lemma_cell(w, h, x, y1);
        if x == 0 || x == w - 1 {
            assert(on_border(w, h, cell(w, x, y1)));
        }
    }
}

/// Pools `0` to `k - 1`, each eroded `depths[id]` times, in order.
pub open spec fn shrink_all(p: Seq<Option<usize>>, w: int, h: int, depths: Seq<nat>, k: nat) -> Seq<
    Option<usize>,
>
    decreases k,
{
    if k == 0 {
        p
    } else {
        shrunk(
            shrink_all(p, w, h, depths, (k - 1) as nat),
            w,
            h,
            (k - 1) as usize,
            depths[k - 1],
        )
    }
}

/// Sharp edges trimmed `k` times.
pub open spec fn unsharpened_times(p: Seq<Option<usize>>, w: int, h: int, k: nat) -> Seq<
    Option<usize>,
>
    decreases k,
{
    if k == 0 {
        p
    } else {
        unsharpened(unsharpened_times(p, w, h, (k - 1) as nat), w, h)
    }
}

/// `r` is what carving makes of the open cells `open`, whose every window
/// copies one of the example's: its open regions
/// (labelled by `labels`) become pools, each eroded by its depth (two or
/// three), sharp edges are trimmed three times, pools under the minimum size
/// (labelled by `small`) are dropped, the border is walled and boring
/// corridors are removed (`k` passes).
pub open spec fn carved_from(
    r: Seq<SewerCell>,
    w: int,
    h: int,
    open: Seq<bool>,
    labels: Seq<Option<usize>>,
    count: int,
    depths: Seq<nat>,
    small: Seq<Option<usize>>,
    small_count: int,
    k: nat,
) -> bool {
    let eroded = unsharpened_times(
        shrink_all(labels, w, h, depths, count as nat),
        w,
        h,
        SHARP_EDGE_PASSES as nat,
    );
    &&& open.len() == w * h
    &&& forall|x: int, y: int|
        0 <= x < w && 0 <= y < h ==> #[trigger] window_from_example(
            open,
            w,
            h,
            x,
            y,
            example_grid(),
            EXAMPLE_SIDE as int,
            EXAMPLE_SIDE as int,
            PATTERN_SIDE as int,
        )
    &&& is_labelling(open, w, labels, count)
    &&& scan_ordered(labels, count)
    &&& depths.len() == count
    &&& forall|d: int| 0 <= d < count ==> 2 <= #[trigger] depths[d] <= 3
    &&& is_labelling(pool_mask(eroded), w, small, small_count)
    &&& r == unbored_times(
        walled(terrain(open, without_small(eroded, small, MIN_POOL_SIZE as int)), w, h),
        w,
        h,
        k,
    )
}

/// `t` is a terrain that carving can produce.
#[verifier::opaque]
pub open spec fn is_carved(t: Seq<SewerCell>, w: int, h: int) -> bool {
    exists|
        open: Seq<bool>,
        labels: Seq<Option<usize>>,
        count: int,
        depths: Seq<nat>,
        small: Seq<Option<usize>>,
        small_count: int,
        k: nat,
    | #[trigger] carved_from(t, w, h, open, labels, count, depths, small, small_count, k)
}

/// Synthesizes the open/closed pattern, carves pools into it, seals its
/// border and removes its boring corridors.
#[verifier::rlimit(80)]
pub fn carve_terrain(w: u32, h: u32, rng: &mut Isaac64Rng) -> (r: Vec<SewerCell>)
    requires
        dims_ok(w as int, h as int),
    ensures
        r@.len() == w * h,
        is_terrain(r@),
        border_sealed(r@, w as int, h as int),
        unbored(r@, w as int, h as int) == r@,
        is_carved(r@, w as int, h as int),
{
    let wu = w as usize;
    let hu = h as usize;
    let open = synthesize(example_cells(), EXAMPLE_SIDE, EXAMPLE_SIDE, w, h, PATTERN_SIDE, rng);
    let (labels, count) = label_regions(&open, wu);
    let ghost mut depths: Seq<nat> = Seq::empty();
    let mut pools = copy_vec(&labels);
    let mut id: usize = 0;
    while id < count
        invariant
            dims_ok(wu as int, hu as int),
            wu == w,
            hu == h,
            id <= count,
            pools@.len() == w * h,
            open@.len() == w * h,
            depths.len() == id,
            forall|d: int| 0 <= d < id ==> 2 <= #[trigger] depths[d] <= 3,
            pools@ == shrink_all(labels@, w as int, h as int, depths, id as nat),
        decreases count - id,
    {
        let by = random_below(rng, 2, 4);
        let ghost before = depths;
        proof {
            depths = depths.push(by as nat);
            assert(shrink_all(labels@, w as int, h as int, depths, id as nat) == shrink_all(
                labels@,
                w as int,
                h as int,
                before,
                id as nat,
            )) by {
                lemma_shrink_all_prefix(labels@, w as int, h as int, before, depths, id as nat);
            }
        }
        pools = shrink_pool_by(pools, wu, hu, id, by);
        id = id + 1;
    }
    let ghost shrunk_pools = pools@;
    let mut pass: usize = 0;
    while pass < SHARP_EDGE_PASSES
        invariant
            dims_ok(wu as int, hu as int),
            wu == w,
            hu == h,
            pass <= SHARP_EDGE_PASSES,
            pools@.len() == w * h,
            open@.len() == w * h,
            pools@ == unsharpened_times(shrunk_pools, w as int, h as int, pass as nat),
        decreases SHARP_EDGE_PASSES - pass,
    {
        pools = remove_sharp_edges(&pools, wu, hu);
        pass = pass + 1;
    }
    let ghost eroded = pools@;
    let pools = remove_small_pools(&pools, wu, hu, MIN_POOL_SIZE);
    let t0 = add_pools(&open, &pools);
    let t1 = add_outer_wall(&t0, wu, hu);
    proof {
        let a = terrain(open@, pools@);
        let b = walled(a, w as int, h as int);
        assert forall|i: int| 0 <= i < b.len() implies #[trigger] b[i] == SewerCell::Wall || b[i]
            == SewerCell::Floor || b[i] == SewerCell::Pool by {}
        assert(is_terrain(b));
        assert(border_sealed(b, w as int, h as int));
    }
    let t = remove_boring_space(t1, wu, hu);
    proof {
        let k = choose|k: nat| t@ == unbored_times(t1@, w as int, h as int, k);
        lemma_unbored_keeps(t1@, w as int, h as int, k);
        let (small, small_count) = choose|small: Seq<Option<usize>>, c: int|
            is_labelling(pool_mask(eroded), w as int, small, c) && pools@ == without_small(
                eroded,
                small,
                MIN_POOL_SIZE as int,
            );
        reveal(is_carved);
        assert(carved_from(
            t@,
            w as int,
            h as int,
            open@,
            labels@,
            count as int,
            depths,
            small,
            small_count,
            k,
        ));
    }
    t
}

proof fn lemma_shrink_all_prefix(
    p: Seq<Option<usize>>,
    w: int,
    h: int,
    a: Seq<nat>,
    b: Seq<nat>,
    k: nat,
)
    requires
        k <= a.len(),
        k <= b.len(),
        forall|d: int| 0 <= d < k ==> a[d] == b[d],
    ensures
        shrink_all(p, w, h, a, k) == shrink_all(p, w, h, b, k),
    decreases k,
{
    if k > 0 {
        lemma_shrink_all_prefix(p, w, h, a, b, (k - 1) as nat);
    }
}


/// Index of a coordinate in a grid `w` cells wide.
pub open spec fn index_of(c: Coord, w: int) -> int {
    c.y * w + c.x
}

pub open spec fn in_grid(c: Coord, w: int, h: int) -> bool {
    c.x < w && c.y < h
}

/// `m` is the terrain `t` with some cells walled in, bridges laid over pool
/// cells of `t` that lie between two different pool bodies, and doors opened
/// in wall cells of `t` that lie between two different rooms; `t` itself
/// holds only wall, floor and pool, with no floor on its border.
pub open spec fn opened_from(m: Seq<SewerCell>, t: Seq<SewerCell>, w: int, h: int) -> bool {
    &&& t.len() == m.len()
    &&& is_carved(t, w, h)
    &&& is_terrain(t)
    &&& border_sealed(t, w, h)
    &&& forall|i: int|
        0 <= i < m.len() ==> {
            ||| #[trigger] m[i] == SewerCell::Wall
            ||| m[i] == t[i]
            ||| (m[i] == SewerCell::Bridge && t[i] == SewerCell::Pool && spans_bodies(t, w, h, i))
            ||| (m[i] == SewerCell::Door && t[i] == SewerCell::Wall && splits_rooms(t, w, h, i))
        }
}

/// `goal` was drawn from the farthest tenth, by squared distance from
/// `start`, of the spawn-safe cells of `m` other than `start`.
pub open spec fn goal_far(m: Seq<SewerCell>, w: int, h: int, start: int, goal: usize) -> bool {
    exists|rest: Seq<usize>, order: Seq<usize>|
        #![trigger far_pick(rest, start, w, order, goal)]
        (forall|q: int| 0 <= q < rest.len() ==> spawn_safe(m, w, h, #[trigger] rest[q] as int) && rest[q] != start)
            && (forall|i: int| 0 <= i < m.len() && #[trigger] spawn_safe(m, w, h, i) && i != start ==> rest.contains(i as usize))
            && far_pick(rest, start, w, order, goal)
}

/// Everything a finished level promises.
pub open spec fn is_valid_sewer(s: Sewer) -> bool {
    let w = s.map.width as int;
    let h = s.map.height as int;
    let m = s.map.cells@;
    let st = index_of(s.start, w);
    let g = index_of(s.goal, w);
    &&& dims_ok(w, h)
    &&& m.len() == w * h
    &&& in_grid(s.start, w, h)
    &&& in_grid(s.goal, w, h)
    &&& s.start != s.goal
    &&& spawn_safe(m, w, h, st)
    &&& spawn_safe(m, w, h, g)
    &&& goal_far(m, w, h, st, g as usize)
    &&& exists|i: int| 0 <= i < m.len() && m[i] == SewerCell::Pool
    &&& forall|i: int|
        0 <= i < m.len() && on_border(w, h, i) ==> #[trigger] m[i] == SewerCell::Wall || m[i]
            == SewerCell::Pool
    &&& forall|i: int|
        0 <= i < m.len() && #[trigger] m[i] != SewerCell::Wall ==> connected(not_wall(m), w, st, i)
    &&& exists|t: Seq<SewerCell>| opened_from(m, t, w, h)
    &&& forall|q: int|
        0 <= q < s.lights@.len() ==> in_grid(#[trigger] s.lights@[q].coord, w, h)
            && m[index_of(s.lights@[q].coord, w)] == SewerCell::Pool
    &&& forall|i: int|
        0 <= i < m.len() && pool_edge(m, w, h, i) ==> exists|q: int|
            0 <= q < s.lights@.len() && index_of(#[trigger] s.lights@[q].coord, w) == i
}

/// Sizes that the generator accepts: at least the pattern window in each
/// direction, and few enough cells to index.
pub open spec fn spec_ok(spec: SewerSpec) -> bool {
    dims_ok(spec.size.width as int, spec.size.height as int)
}

/// A copy of the vector, item by item.
fn copy_vec<T: Copy>(m: &Vec<T>) -> (r: Vec<T>)
    ensures
        r@ == m@,
{
    let mut out: Vec<T> = Vec::new();
    let mut i: usize = 0;
    while i < m.len()
        invariant
            i <= m@.len(),
            out@ == m@.take(i as int),
        decreases m@.len() - i,
    {
        out.push(m[i]);
        i = i + 1;
        assert(out@ =~= m@.take(i as int));
    }
    assert(m@.take(m@.len() as int) =~= m@);
    out
}

fn has_pool(m: &Vec<SewerCell>) -> (r: bool)
    ensures
        r == exists|i: int| 0 <= i < m@.len() && m@[i] == SewerCell::Pool,
{
    let mut i: usize = 0;
    while i < m.len()
        invariant
            i <= m@.len(),
            forall|j: int| 0 <= j < i ==> m@[j] != SewerCell::Pool,
        decreases m@.len() - i,
    {
        if m[i] == SewerCell::Pool {
            return true;
        }
        i = i + 1;
    }
    false
}

fn coord_of(i: usize, w: u32, h: u32) -> (r: Coord)
    requires
        dims_ok(w as int, h as int),
        i < w * h,
    ensures
        in_grid(r, w as int, h as int),
        index_of(r, w as int) == i,
        r.x == (i as int) % (w as int),
        r.y == (i as int) / (w as int),
{
    proof {
        lemma_coords(w as int, h as int, i as int);
    }
    let wu = w as usize;
    Coord { x: (i % wu) as u32, y: (i / wu) as u32 }
}

/// Squared straight-line distance between cells `a` and `b` of a grid `w` wide.
pub open spec fn dist2(a: int, b: int, w: int) -> int {
    (a % w - b % w) * (a % w - b % w) + (a / w - b / w) * (a / w - b / w)
}

/// `order` holds the cells of `rest`, each as often, in ascending distance
/// from `start`, and `goal` stands in its farthest tenth.
pub open spec fn far_pick(rest: Seq<usize>, start: int, w: int, order: Seq<usize>, goal: usize) -> bool {
    &&& order.len() == rest.len()
    &&& order.to_multiset() == rest.to_multiset()
    &&& forall|q: int| 0 <= q < order.len() ==> rest.contains(#[trigger] order[q])
    &&& forall|i: int, j: int|
        0 <= i < j < order.len() ==> dist2(start, #[trigger] order[i] as int, w) <= dist2(
            start,
            #[trigger] order[j] as int,
            w,
        )
    &&& exists|k: int| 9 * (order.len() / 10) <= k < order.len() && #[trigger] order[k] == goal
}

/// Mapping two sequences that hold the same items gives sequences that hold
/// the same items.
proof fn lemma_map_multiset<A, B>(a: Seq<A>, b: Seq<A>, f: spec_fn(A) -> B)
    requires
        a.to_multiset() == b.to_multiset(),
    ensures
        a.map_values(f).to_multiset() == b.map_values(f).to_multiset(),
    decreases a.len(),
{
    a.to_multiset_ensures();
    b.to_multiset_ensures();
    a.map_values(f).to_multiset_ensures();
    b.map_values(f).to_multiset_ensures();
    if a.len() == 0 {
        assert(b.len() == 0);
        assert(a.map_values(f) =~= b.map_values(f));
    } else {
        let x = a.last();
        let a1 = a.drop_last();
        assert(a1.push(x) =~= a);
        a1.to_multiset_ensures();
        assert(a.to_multiset() =~= a1.to_multiset().insert(x));
        assert(a.to_multiset().count(x) > 0);
        assert(b.contains(x));
        let i = choose|i: int| 0 <= i < b.len() && b[i] == x;
        let b1 = b.remove(i);
        assert(b1.to_multiset() =~= b.to_multiset().remove(x));
        assert(b1.to_multiset() =~= a1.to_multiset());
        lemma_map_multiset(a1, b1, f);
        let fa = a.map_values(f);
        let fb = b.map_values(f);
        assert(a1.map_values(f).push(f(x)) =~= fa);
        a1.map_values(f).to_multiset_ensures();
        assert(fb.remove(i) =~= b1.map_values(f));
        assert(fb[i] == f(x));
        assert(fb.remove(i).to_multiset() =~= fb.to_multiset().remove(f(x)));
        assert(fa.to_multiset() =~= a1.map_values(f).to_multiset().insert(f(x)));
        assert(fb.to_multiset().count(f(x)) > 0) by {
            assert(fb.contains(f(x)));
        }
        assert(fa.to_multiset() =~= fb.to_multiset());
    }
}

fn distance2(a: usize, b: usize, w: u32, h: u32) -> (r: u128)
    requires
        dims_ok(w as int, h as int),
        a < w * h,
        b < w * h,
    ensures
        r == dist2(a as int, b as int, w as int),
{
    let ca = coord_of(a, w, h);
    let cb = coord_of(b, w, h);
    let dx: u128 = if ca.x > cb.x {
        (ca.x - cb.x) as u128
    } else {
        (cb.x - ca.x) as u128
    };
    let dy: u128 = if ca.y > cb.y {
        (ca.y - cb.y) as u128
    } else {
        (cb.y - ca.y) as u128
    };
    assert(dx * dx + dy * dy <= 0x3_ffff_fffc_0000_0002u128) by (nonlinear_arith)
        requires
            dx <= 0xffff_ffff,
            dy <= 0xffff_ffff,
    ;
    let ghost ddx = ca.x as int - cb.x as int;
    let ghost ddy = ca.y as int - cb.y as int;
    assert(dx * dx == ddx * ddx) by (nonlinear_arith)
        requires
            dx == ddx || dx == -ddx,
    ;
    assert(dy * dy == ddy * ddy) by (nonlinear_arith)
        requires
            dy == ddy || dy == -ddy,
    ;
    dx * dx + dy * dy
}

/// Orders the spawn candidates other than the start by their distance from
/// it (ties keep their order) and picks the goal among the farthest tenth.
fn pick_goal(rest: &Vec<usize>, start: usize, w: u32, h: u32, rng: &mut Isaac64Rng) -> (r: Option<
    usize,
>)
    requires
        dims_ok(w as int, h as int),
        start < w * h,
        forall|q: int| 0 <= q < rest@.len() ==> #[trigger] rest@[q] < w * h,
    ensures
        r.is_none() == (rest@.len() == 0),
        r matches Some(g) ==> rest@.contains(g),
        r matches Some(g) ==> exists|order: Seq<usize>| #[trigger] far_pick(rest@, start as int, w as int, order, g),
{
    let mut keyed: Vec<(u128, usize)> = Vec::new();
    let mut p: usize = 0;
    while p < rest.len()
        invariant
            dims_ok(w as int, h as int),
            start < w * h,
            forall|q: int| 0 <= q < rest@.len() ==> #[trigger] rest@[q] < w * h,
            p <= rest@.len(),
            keyed@.len() == p,
            forall|q: int| 0 <= q < keyed@.len() ==> #[trigger] keyed@[q].1 < p,
            forall|q: int|
                0 <= q < keyed@.len() ==> (#[trigger] keyed@[q]).1 == q && keyed@[q].0 == dist2(
                    start as int,
                    rest@[q] as int,
                    w as int,
                ),
        decreases rest@.len() - p,
    {
        let d = distance2(start, rest[p], w, h);
        keyed.push((d, p));
        p = p + 1;
    }
    let ghost unsorted = keyed@;
    sort_pairs(&mut keyed);
    proof {
        assert forall|i: int, j: int| 0 <= i < j < keyed@.len() implies keyed@[i].0 <= keyed@[j].0 by {}
    }
    let mut by_dist: Vec<usize> = Vec::new();
    let mut k: usize = 0;
    while k < keyed.len()
        invariant
            k <= keyed@.len(),
            keyed@.len() == rest@.len(),
            keyed@.to_multiset() == unsorted.to_multiset(),
            forall|q: int| 0 <= q < unsorted.len() ==> #[trigger] unsorted[q].1 < rest@.len(),
            by_dist@.len() == k,
            forall|q: int| 0 <= q < k ==> rest@.contains(#[trigger] by_dist@[q]),
            forall|q: int|
                0 <= q < unsorted.len() ==> (#[trigger] unsorted[q]).1 == q && unsorted[q].0 == dist2(
                    start as int,
                    rest@[q] as int,
                    w as int,
                ),
            forall|i: int, j: int| 0 <= i < j < keyed@.len() ==> #[trigger] keyed@[i].0 <= #[trigger] keyed@[j].0,
            forall|q: int| 0 <= q < k ==> dist2(start as int, #[trigger] by_dist@[q] as int, w as int) == keyed@[q].0,
            forall|q: int| 0 <= q < k ==> #[trigger] by_dist@[q] == rest@[keyed@[q].1 as int],
        decreases keyed@.len() - k,
    {
        let e = keyed[k];
        proof {
            keyed@.to_multiset_ensures();
            unsorted.to_multiset_ensures();
            assert(keyed@[k as int] == e);
            assert(keyed@.contains(e));
            assert(keyed@.to_multiset().count(e) > 0);
            assert(unsorted.to_multiset().count(e) > 0);
            assert(unsorted.contains(e));
        }
        let v = rest[e.1];
        proof {
            let q = choose|q: int| 0 <= q < unsorted.len() && unsorted[q] == e;
            assert(unsorted[q].1 == q);
        }
        by_dist.push(v);
        proof {
            assert(rest@[e.1 as int] == v);
        }
        k = k + 1;
    }
    let from = 9 * (by_dist.len() / 10);
    let r = choose_from(&by_dist, from, rng);
    proof {
        if let Some(g) = r {
            let q = choose|q: int| from <= q < by_dist@.len() && by_dist@[q] == g;
            assert(rest@.contains(by_dist@[q]));
            assert forall|i: int, j: int| 0 <= i < j < by_dist@.len() implies dist2(start as int, #[trigger] by_dist@[i] as int, w as int) <= dist2(
                start as int,
                #[trigger] by_dist@[j] as int,
                w as int,
            ) by {
                assert(keyed@[i].0 <= keyed@[j].0);
            }
            let f = |e: (u128, usize)| rest@[e.1 as int];
            assert(by_dist@ =~= keyed@.map_values(f));
            assert(rest@ =~= unsorted.map_values(f));
            lemma_map_multiset(keyed@, unsorted, f);
            assert(far_pick(rest@, start as int, w as int, by_dist@, g));
        }
    }
    r
}

/// The map of a level: every non-wall cell reaches every other one, the
/// border holds only wall and pool, and each bridge and door sits between
/// two regions of the terrain it was opened in.
pub open spec fn is_level_map(m: Seq<SewerCell>, w: int, h: int) -> bool {
    &&& m.len() == w * h
    &&& forall|i: int|
        0 <= i < m.len() && on_border(w, h, i) ==> #[trigger] m[i] == SewerCell::Wall || m[i]
            == SewerCell::Pool
    &&& forall|a: int, b: int|
        0 <= a < m.len() && 0 <= b < m.len() && #[trigger] m[a] != SewerCell::Wall && #[trigger] m[b]
            != SewerCell::Wall ==> connected(not_wall(m), w, a, b)
    &&& exists|t: Seq<SewerCell>| opened_from(m, t, w, h)
}

/// `m` was built from the carved terrain `t`: `c` classifies `t`; the
/// bridge candidates `bs` of `t`, pruned to `keep`, are all painted; each
/// door candidate of `t` in `ds` that `chosen` picks (a spanning tree and
/// more) has a door; nothing else changed in `painted`; and `m` keeps only
/// the last largest connected area of `painted`.
pub open spec fn built_with(
    m: Seq<SewerCell>,
    t: Seq<SewerCell>,
    c: Seq<Classified>,
    bs: Seq<BridgeCandidate>,
    keep: Seq<bool>,
    ds: Seq<DoorCandidate>,
    chosen: Seq<bool>,
    painted: Seq<SewerCell>,
    labels: Seq<Option<usize>>,
    count: int,
    l: usize,
    w: int,
    h: int,
) -> bool {
    &&& t.len() == w * h
    &&& is_carved(t, w, h)
    &&& is_classification(t, w, c)
    &&& forall|k: int| 0 <= k < bs.len() ==> bridge_ok(t, w, h, #[trigger] bs[k])
    &&& keep.len() == bs.len()
    &&& forall|k: int| 0 <= k < bs.len() ==> #[trigger] keep[k] == bridge_kept(bs, k)
    &&& forall|k: int, q: int|
        0 <= k < bs.len() && keep[k] && 0 <= q < bs[k].coords@.len() ==> painted[#[trigger] bs[k].coords@[q] as int]
            == SewerCell::Bridge
    &&& forall|k: int| 0 <= k < ds.len() ==> door_ok(t, w, h, #[trigger] ds[k])
    &&& doors_chosen(ds, chosen)
    &&& forall|k: int|
        0 <= k < ds.len() && #[trigger] chosen[k] ==> exists|q: int|
            0 <= q < ds[k].coords@.len() && painted[ds[k].coords@[q] as int] == SewerCell::Door
    &&& painted_over(painted, t, w, h)
    &&& is_labelling(not_wall(painted), w, labels, count)
    &&& (count == 0 || last_largest(labels, count, l as int))
    &&& m == keep_component(painted, labels, l)
}

/// `m` is a map that `build_map` can return.
#[verifier::opaque]
pub open spec fn is_built(m: Seq<SewerCell>, w: int, h: int) -> bool {
    exists|
        t: Seq<SewerCell>,
        c: Seq<Classified>,
        bs: Seq<BridgeCandidate>,
        keep: Seq<bool>,
        ds: Seq<DoorCandidate>,
        chosen: Seq<bool>,
        painted: Seq<SewerCell>,
        labels: Seq<Option<usize>>,
        count: int,
        l: usize,
    | #[trigger] built_with(m, t, c, bs, keep, ds, chosen, painted, labels, count, l, w, h)
}

/// The bridge candidates of the rows, then those of the columns.
fn all_bridge_candidates(t: &Vec<SewerCell>, c: &Vec<Classified>, w: usize, h: usize) -> (r: Vec<
    BridgeCandidate,
>)
    requires
        dims_ok(w as int, h as int),
        c@.len() == w * h,
        is_classification(t@, w as int, c@),
    ensures
        forall|k: int| 0 <= k < r@.len() ==> bridge_ok(t@, w as int, h as int, #[trigger] r@[k]),
{
    let mut bridges = bridge_candidates_axis(t, c, w, h, true);
    let mut more = bridge_candidates_axis(t, c, w, h, false);
    let ghost b0 = bridges@;
    let ghost m0 = more@;
    bridges.append(&mut more);
    proof {
        assert forall|k: int| 0 <= k < bridges@.len() implies bridge_ok(t@, w as int, h as int, #[trigger] bridges@[k]) by {
            if k < b0.len() {
                assert(bridges@[k] == b0[k]);
            } else {
                assert(bridges@[k] == m0[k - b0.len()]);
            }
        }
    }
    bridges
}

/// The door candidates of the inner rows, then those of the inner columns.
fn all_door_candidates(t: &Vec<SewerCell>, c: &Vec<Classified>, w: usize, h: usize) -> (r: Vec<
    DoorCandidate,
>)
    requires
        dims_ok(w as int, h as int),
        c@.len() == w * h,
        is_classification(t@, w as int, c@),
    ensures
        forall|k: int| 0 <= k < r@.len() ==> door_ok(t@, w as int, h as int, #[trigger] r@[k]),
        forall|k: int| 0 <= k < r@.len() ==> (#[trigger] r@[k]).low != r@[k].high,
{
    let mut doors = door_candidates_axis(t, c, w, h, true);
    let mut more = door_candidates_axis(t, c, w, h, false);
    let ghost d0 = doors@;
    let ghost m0 = more@;
    doors.append(&mut more);
    proof {
        assert forall|k: int| 0 <= k < doors@.len() implies door_ok(t@, w as int, h as int, #[trigger] doors@[k]) by {
            if k < d0.len() {
                assert(doors@[k] == d0[k]);
            } else {
                assert(doors@[k] == m0[k - d0.len()]);
            }
        }
    }
    doors
}

/// Carves the terrain, opens the chosen bridges and doors in it and keeps
/// its largest connected area.
#[verifier::rlimit(80)]
pub fn build_map(w: u32, h: u32, rng: &mut Isaac64Rng) -> (r: Vec<SewerCell>)
    requires
        dims_ok(w as int, h as int),
    ensures
        is_level_map(r@, w as int, h as int),
        is_built(r@, w as int, h as int),
{
    let wu = w as usize;
    let hu = h as usize;
    let ghost wi = w as int;
    let ghost hi = h as int;
    let t = carve_terrain(w, h, rng);
    let ghost tv = t@;
    let c = classify_floor(&t, wu, hu);
    let bridges = all_bridge_candidates(&t, &c, wu, hu);
    let keep = prune_bridges(&bridges);
    let doors = all_door_candidates(&t, &c, wu, hu);
    let chosen = choose_doors(&doors, rng);
    let mut painted = copy_vec(&t);
    paint_bridges(&mut painted, &bridges, &keep, wu, hu, &t);
    let ghost pb = painted@;
    paint_doors(&mut painted, &doors, &chosen, rng, wu, hu, &t);
    let ghost pv = painted@;
    proof {
        assert forall|k: int, q: int|
            0 <= k < bridges@.len() && keep@[k] && 0 <= q < bridges@[k].coords@.len() implies pv[#[trigger] bridges@[k].coords@[q] as int]
            == SewerCell::Bridge by {
            let i = bridges@[k].coords@[q] as int;
            assert(bridge_ok(tv, wi, hi, bridges@[k]));
            assert(pb[i] == SewerCell::Bridge);
            if pv[i] == SewerCell::Door {
                assert(tv[i] == SewerCell::Wall);
            }
        }
        assert forall|k: int| 0 <= k < doors@.len() implies door_ok(tv, wi, hi, #[trigger] doors@[k]) by {
        }
    }
    let map = ensure_single_connected_area(&painted, wu, hu);
    proof {
        let m = map@;
        let (labels, cc, l) = choose|labels: Seq<Option<usize>>, c: int, l: usize|
            #![trigger crate::flood::is_labelling(not_wall(pv), wi, labels, c), keep_component(pv, labels, l)]
            crate::flood::is_labelling(not_wall(pv), wi, labels, c) && (c == 0
                || crate::assemble::last_largest(labels, c, l as int)) && m == keep_component(
                pv,
                labels,
                l,
            );
        assert forall|i: int| 0 <= i < m.len() && on_border(wi, hi, i) implies #[trigger] m[i]
            == SewerCell::Wall || m[i] == SewerCell::Pool by {
            if m[i] != SewerCell::Wall {
                assert(m[i] == pv[i]);
                if pv[i] == SewerCell::Bridge && tv[i] == SewerCell::Pool && spans_bodies(
                    tv,
                    wi,
                    hi,
                    i,
                ) {
                    lemma_span_inner(tv, wi, hi, i);
                }
            }
        }
        assert forall|a: int, b: int|
            0 <= a < m.len() && 0 <= b < m.len() && #[trigger] m[a] != SewerCell::Wall
                && #[trigger] m[b] != SewerCell::Wall implies connected(not_wall(m), wi, a, b) by {
            lemma_kept_connected(pv, wi, labels, cc, l, a, b);
        }
        assert(opened_from(m, tv, wi, hi));
        reveal(is_built);
        assert(built_with(
            m,
            tv,
            c@,
            bridges@,
            keep@,
            doors@,
            chosen@,
            pv,
            labels,
            cc,
            l,
            wi,
            hi,
        ));
    }
    map
}

/// Lights for a finished map: every pool cell next to floor or to the edge
/// has one, the others by chance; each light sits on a pool cell.
fn place_lights(m: &Vec<SewerCell>, w: u32, h: u32, rng: &mut Isaac64Rng) -> (r: Vec<SewerLight>)
    requires
        dims_ok(w as int, h as int),
        m@.len() == w * h,
    ensures
        forall|q: int|
            0 <= q < r@.len() ==> in_grid(#[trigger] r@[q].coord, w as int, h as int)
                && m@[index_of(r@[q].coord, w as int)] == SewerCell::Pool,
        forall|i: int|
            0 <= i < m@.len() && pool_edge(m@, w as int, h as int, i) ==> exists|q: int|
                0 <= q < r@.len() && index_of(#[trigger] r@[q].coord, w as int) == i,
{
    let ghost wi = w as int;
    let ghost hi = h as int;
    let cells = pool_lights(m, w as usize, h as usize, rng);
    let mut lights: Vec<SewerLight> = Vec::new();
    let mut k: usize = 0;
    while k < cells.len()
        invariant
            dims_ok(wi, hi),
            wi == w,
            hi == h,
            k <= cells@.len(),
            m@.len() == w * h,
            forall|q: int|
                0 <= q < cells@.len() ==> #[trigger] cells@[q] < m@.len() && m@[cells@[q] as int]
                    == SewerCell::Pool,
            lights@.len() == k,
            forall|q: int|
                0 <= q < k ==> in_grid(#[trigger] lights@[q].coord, wi, hi) && index_of(
                    lights@[q].coord,
                    wi,
                ) == cells@[q],
        decreases cells@.len() - k,
    {
        let coord = coord_of(cells[k], w, h);
        lights.push(SewerLight { typ: SewerLightType::Pool, coord });
        k = k + 1;
    }
    proof {
        assert forall|i: int| 0 <= i < m@.len() && pool_edge(m@, wi, hi, i) implies exists|q: int|
            0 <= q < lights@.len() && index_of(#[trigger] lights@[q].coord, wi) == i by {
            let q = choose|q: int| 0 <= q < cells@.len() && cells@[q] == i as usize;
            assert(index_of(lights@[q].coord, wi) == i);
        }
    }
    lights
}

proof fn lemma_valid_sewer(s: Sewer)
    requires
        dims_ok(s.map.width as int, s.map.height as int),
        is_level_map(s.map.cells@, s.map.width as int, s.map.height as int),
        in_grid(s.start, s.map.width as int, s.map.height as int),
        in_grid(s.goal, s.map.width as int, s.map.height as int),
        s.start != s.goal,
        spawn_safe(s.map.cells@, s.map.width as int, s.map.height as int, index_of(s.start, s.map.width as int)),
        spawn_safe(s.map.cells@, s.map.width as int, s.map.height as int, index_of(s.goal, s.map.width as int)),
        goal_far(
            s.map.cells@,
            s.map.width as int,
            s.map.height as int,
            index_of(s.start, s.map.width as int),
            index_of(s.goal, s.map.width as int) as usize,
        ),
        has_pool_cell(s.map.cells@),
        forall|q: int|
            0 <= q < s.lights@.len() ==> in_grid(#[trigger] s.lights@[q].coord, s.map.width as int, s.map.height as int)
                && s.map.cells@[index_of(s.lights@[q].coord, s.map.width as int)] == SewerCell::Pool,
        forall|i: int|
            0 <= i < s.map.cells@.len() && pool_edge(s.map.cells@, s.map.width as int, s.map.height as int, i)
                ==> exists|q: int|
                0 <= q < s.lights@.len() && index_of(#[trigger] s.lights@[q].coord, s.map.width as int) == i,
    ensures
        is_valid_sewer(s),
{
    let m = s.map.cells@;
    let w = s.map.width as int;
    let st = index_of(s.start, w);
    lemma_cell(w, s.map.height as int, s.start.x as int, s.start.y as int);
    assert(0 <= st < m.len());
    assert(m[st] != SewerCell::Wall);
    assert forall|i: int| 0 <= i < m.len() && #[trigger] m[i] != SewerCell::Wall implies connected(not_wall(m), w, st, i) by {
        assert(m[st] != SewerCell::Wall && m[i] != SewerCell::Wall);
    }
}

/// Two different cells of the map are spawn-safe.
pub open spec fn two_spawns(m: Seq<SewerCell>, w: int, h: int) -> bool {
    exists|a: int, b: int|
        0 <= a < m.len() && 0 <= b < m.len() && a != b && #[trigger] spawn_safe(m, w, h, a)
            && #[trigger] spawn_safe(m, w, h, b)
}

/// Some cell of the map is pool.
pub open spec fn has_pool_cell(m: Seq<SewerCell>) -> bool {
    exists|i: int| 0 <= i < m.len() && m[i] == SewerCell::Pool
}

/// Finishes a built map into a level: picks the start among the spawn-safe
/// cells, the goal among the farthest tenth of the others, and the lights.
/// Returns nothing exactly when fewer than two cells are spawn-safe or no
/// cell is pool.
#[verifier::rlimit(80)]
pub fn finish_level(map: Vec<SewerCell>, w: u32, h: u32, rng: &mut Isaac64Rng) -> (r: Option<Sewer>)
    requires
        dims_ok(w as int, h as int),
        is_level_map(map@, w as int, h as int),
    ensures
        r is None <==> (!two_spawns(map@, w as int, h as int) || !has_pool_cell(map@)),
        r matches Some(s) ==> {
            &&& is_valid_sewer(s)
            &&& s.map.cells@ == map@
            &&& s.map.width == w
            &&& s.map.height == h
        },
{
    let wu = w as usize;
    let hu = h as usize;
    let ghost wi = w as int;
    let ghost hi = h as int;
    let cands = spawn_candidates(&map, wu, hu);
    let ghost cv = cands@;
    let mut order = cands;
    shuffle(&mut order, rng);
    let ghost full = order@;
    let start = match order.pop() {
        Some(s) => s,
        None => {
            proof {
                if two_spawns(map@, wi, hi) {
                    let (a, b) = choose|a: int, b: int|
                        0 <= a < map@.len() && 0 <= b < map@.len() && a != b && #[trigger] spawn_safe(
                            map@,
                            wi,
                            hi,
                            a,
                        ) && #[trigger] spawn_safe(map@, wi, hi, b);
                    assert(cv.contains(a as usize));
                }
            }
            return None;
        },
    };
    proof {
        cv.to_multiset_ensures();
        full.to_multiset_ensures();
        assert(cv.no_duplicates());
        cv.lemma_multiset_has_no_duplicates();
        full.lemma_multiset_has_no_duplicates_conv();
        assert(full[full.len() - 1] == start);
        assert(full.contains(start));
        assert(full.to_multiset().count(start) > 0);
        assert(cv.contains(start));
        assert forall|q: int| 0 <= q < order@.len() implies #[trigger] order@[q] < w * h
            && cv.contains(order@[q]) && order@[q] != start by {
            assert(full[q] == order@[q]);
            assert(full.contains(order@[q]));
            assert(full.to_multiset().count(order@[q]) > 0);
            assert(cv.to_multiset().count(order@[q]) > 0);
            assert(q != full.len() - 1);
        }
    }
    proof {
        assert forall|i: int| 0 <= i < map@.len() && #[trigger] spawn_safe(map@, wi, hi, i) && i != start implies order@.contains(i as usize) by {
            assert(cv.contains(i as usize));
            assert(cv.to_multiset().count(i as usize) > 0);
            assert(full.to_multiset().count(i as usize) > 0);
            assert(full.contains(i as usize));
            let q = choose|q: int| 0 <= q < full.len() && full[q] == i as usize;
            assert(q != full.len() - 1);
            assert(order@[q] == i as usize);
        }
    }
    let ghost rest = order@;
    let goal = match pick_goal(&order, start, w, h, rng) {
        Some(g) => g,
        None => {
            proof {
                if two_spawns(map@, wi, hi) {
                    let (a, b) = choose|a: int, b: int|
                        0 <= a < map@.len() && 0 <= b < map@.len() && a != b && #[trigger] spawn_safe(
                            map@,
                            wi,
                            hi,
                            a,
                        ) && #[trigger] spawn_safe(map@, wi, hi, b);
                    assert(cv.contains(a as usize));
                    assert(cv.contains(b as usize));
                    assert(cv.len() == 1);
                }
            }
            return None;
        },
    };
    proof {
        assert(cv[0] != cv[1]);
        assert(spawn_safe(map@, wi, hi, cv[0] as int) && spawn_safe(map@, wi, hi, cv[1] as int));
        assert(two_spawns(map@, wi, hi));
    }
    if !has_pool(&map) {
        return None;
    }
    let lights = place_lights(&map, w, h, rng);
    let start_coord = coord_of(start, w, h);
    let goal_coord = coord_of(goal, w, h);
    proof {
        assert(start_coord != goal_coord) by {
            if start_coord == goal_coord {
                assert(index_of(start_coord, wi) == index_of(goal_coord, wi));
            }
        }
    }
    let ghost mv = map@;
    proof {
        assert(spawn_safe(mv, wi, hi, start as int));
        assert(spawn_safe(mv, wi, hi, goal as int));
        let order_w = choose|order_w: Seq<usize>| #[trigger] far_pick(rest, start as int, wi, order_w, goal);
        assert(far_pick(rest, start as int, wi, order_w, goal));
        assert(goal_far(mv, wi, hi, start as int, goal));
        assert(forall|i: int|
            0 <= i < mv.len() && #[trigger] mv[i] != SewerCell::Wall ==> connected(
                not_wall(mv),
                wi,
                start as int,
                i,
            )) by {
            assert(mv[start as int] != SewerCell::Wall);
        }
        assert(exists|t: Seq<SewerCell>| opened_from(mv, t, wi, hi));
    }
    let sewer = Sewer {
        start: start_coord,
        goal: goal_coord,
        map: Grid { width: w, height: h, cells: map },
        lights,
    };
    proof {
        assert(sewer.map.cells@ == mv);
        lemma_valid_sewer(sewer);
    }
    let r = Some(sewer);
    assert(r matches Some(s) && is_valid_sewer(s) && s.map.width == w && s.map.height == h);
    r
}

impl Sewer {
    /// One attempt at a level: synthesize, carve pools, seal, classify,
    /// lay bridges and doors, keep the largest area, then pick start, goal
    /// and lights (see `finish_level`, which decides when nothing comes back).
    /// When nothing comes back, some map that building can produce at this
    /// size has fewer than two spawn-safe cells or no pool.
    pub fn try_generate(spec: SewerSpec, rng: &mut Isaac64Rng) -> (r: Option<Sewer>)
        requires
            spec_ok(spec),
        ensures
            r matches Some(s) ==> {
                &&& is_valid_sewer(s)
                &&& s.map.width == spec.size.width
                &&& s.map.height == spec.size.height
                &&& is_built(s.map.cells@, spec.size.width as int, spec.size.height as int)
            },
            r is None ==> exists|m: Seq<SewerCell>|
                #[trigger] is_built(m, spec.size.width as int, spec.size.height as int) && (
                !two_spawns(m, spec.size.width as int, spec.size.height as int) || !has_pool_cell(
                    m,
                )),
    {
        let w = spec.size.width;
        let h = spec.size.height;
        let map = build_map(w, h, rng);
        let ghost mv = map@;
        let r = finish_level(map, w, h, rng);
        proof {
            if r is None {
                assert(is_built(mv, w as int, h as int));
            }
        }
        r
    }
}

/// Why a level could not be generated.
#[derive(Clone, Copy, PartialEq, Eq, Debug, Structural)]
pub enum SewerError {
    /// Width or height is below the pattern window of three cells.
    TooSmall,
    /// A side is longer than `MAX_SIDE`, or the grid has more cells than an
    /// index can address.
    TooLarge,
    /// Every attempt allowed was rejected.
    OutOfAttempts,
}

/// The error that a size draws, if any.
pub open spec fn size_error(spec: SewerSpec) -> Option<SewerError> {
    if spec.size.width < 3 || spec.size.height < 3 {
        Some(SewerError::TooSmall)
    } else if spec.size.width > MAX_SIDE || spec.size.height > MAX_SIDE || spec.size.width
        * spec.size.height > usize::MAX {
        Some(SewerError::TooLarge)
    } else {
        None
    }
}

/// Some map that an attempt at this size can build has fewer than two
/// spawn-safe cells or no pool, so the attempt that built it returned nothing.
pub open spec fn attempt_failed(spec: SewerSpec) -> bool {
    exists|m: Seq<SewerCell>|
        #[trigger] is_built(m, spec.size.width as int, spec.size.height as int) && (!two_spawns(
            m,
            spec.size.width as int,
            spec.size.height as int,
        ) || !has_pool_cell(m))
}

impl Sewer {
    /// Attempts a level up to `max_attempts` times, drawing from the same
    /// random stream each time. Returns the level and the number of
    /// attempts it took.
    pub fn generate_counted(spec: SewerSpec, rng: &mut Isaac64Rng, max_attempts: u64) -> (r: Result<
        (Sewer, u64),
        SewerError,
    >)
        ensures
            size_error(spec) matches Some(e) ==> r == Err::<(Sewer, u64), SewerError>(e),
            size_error(spec) is None ==> (r is Err ==> r == Err::<(Sewer, u64), SewerError>(
                SewerError::OutOfAttempts,
            )),
            r matches Ok((s, n)) ==> {
                &&& is_valid_sewer(s)
                &&& s.map.width == spec.size.width
                &&& s.map.height == spec.size.height
                &&& 1 <= n <= max_attempts
                &&& is_built(s.map.cells@, spec.size.width as int, spec.size.height as int)
            },
            r == Err::<(Sewer, u64), SewerError>(SewerError::OutOfAttempts) ==> size_error(spec) is None
                && (max_attempts == 0 || attempt_failed(spec)),
    {
        if spec.size.width < 3 || spec.size.height < 3 {
            return Err(SewerError::TooSmall);
        }
        let cells = (spec.size.width as usize).checked_mul(spec.size.height as usize);
        if spec.size.width > MAX_SIDE || spec.size.height > MAX_SIDE || cells.is_none() {
            return Err(SewerError::TooLarge);
        }
        let mut attempts: u64 = 0;
        while attempts < max_attempts
            invariant
                spec_ok(spec),
                size_error(spec) is None,
                attempts <= max_attempts,
                attempts > 0 ==> attempt_failed(spec),
            decreases max_attempts - attempts,
        {
            attempts = attempts + 1;
            match Sewer::try_generate(spec, rng) {
                Some(s) => {
                    return Ok((s, attempts));
                },
                None => {},
            }
        }
        Err(SewerError::OutOfAttempts)
    }

    /// Generates a level, retrying until an attempt succeeds (the attempts
    /// are bounded only by the range of a `u64`).
    pub fn generate(spec: SewerSpec, rng: &mut Isaac64Rng) -> (r: Result<Sewer, SewerError>)
        ensures
            size_error(spec) matches Some(e) ==> r == Err::<Sewer, SewerError>(e),
            size_error(spec) is None ==> (r is Err ==> r == Err::<Sewer, SewerError>(
                SewerError::OutOfAttempts,
            )),
            r matches Ok(s) ==> {
                &&& is_valid_sewer(s)
                &&& s.map.width == spec.size.width
                &&& s.map.height == spec.size.height
                &&& is_built(s.map.cells@, spec.size.width as int, spec.size.height as int)
            },
            r == Err::<Sewer, SewerError>(SewerError::OutOfAttempts) ==> size_error(spec) is None
                && attempt_failed(spec),
    {
        match Sewer::generate_counted(spec, rng, u64::MAX) {
            Ok((s, _)) => Ok(s),
            Err(e) => Err(e),
        }
    }
}

} // verus!
