use crate::flood::{is_labelling, label_regions, scan_ordered};
use crate::grid::{connected, dims_ok};
use crate::level::SewerCell;
use vstd::prelude::*;

verus! {

/// A terrain cell after classification: floor carries its room and its pool body.
#[derive(Clone, Copy, PartialEq, Eq, Debug, Structural)]
pub enum Classified {
    Wall,
    Pool,
    Floor { room: usize, body: usize },
}

/// The grid holds only wall, floor and pool.
pub open spec fn is_terrain(m: Seq<SewerCell>) -> bool {
    forall|i: int|
        0 <= i < m.len() ==> #[trigger] m[i] == SewerCell::Wall || m[i] == SewerCell::Floor || m[i]
            == SewerCell::Pool
}

/// Cells that a room flood fill crosses: all but walls.
pub open spec fn not_wall(m: Seq<SewerCell>) -> Seq<bool> {
    Seq::new(m.len(), |i: int| m[i] != SewerCell::Wall)
}

/// Cells that a pool-body flood fill crosses: all but pools.
pub open spec fn not_pool(m: Seq<SewerCell>) -> Seq<bool> {
    Seq::new(m.len(), |i: int| m[i] != SewerCell::Pool)
}

pub open spec fn room_of(c: Classified) -> int {
    match c {
        Classified::Floor { room, .. } => room as int,
        _ => -1,
    }
}

pub open spec fn body_of(c: Classified) -> int {
    match c {
        Classified::Floor { body, .. } => body as int,
        _ => -1,
    }
}

/// `c` classifies `m`: walls and pools stay, and two floor cells share a room
/// exactly when a flood fill over non-wall cells joins them, and share a pool
/// body exactly when a flood fill over non-pool cells joins them.
pub open spec fn is_classification(m: Seq<SewerCell>, w: int, c: Seq<Classified>) -> bool {
    &&& c.len() == m.len()
    &&& forall|i: int|
        0 <= i < c.len() ==> {
            &&& (#[trigger] c[i] == Classified::Wall) == (m[i] == SewerCell::Wall)
            &&& (c[i] == Classified::Pool) == (m[i] == SewerCell::Pool)
            &&& (c[i] is Floor) == (m[i] == SewerCell::Floor)
        }
    &&& forall|i: int, j: int|
        0 <= i < c.len() && 0 <= j < c.len() && #[trigger] c[i] is Floor && #[trigger] c[j] is Floor
            ==> {
            &&& (room_of(c[i]) == room_of(c[j])) == connected(not_wall(m), w, i, j)
            &&& (body_of(c[i]) == body_of(c[j])) == connected(not_pool(m), w, i, j)
        }
}

/// The room and pool-body ids of the floor cells are those of the two
/// labellings of `m` (over non-wall and over non-pool cells) that number
/// the components densely in row-by-row discovery order.
pub open spec fn classified_ids(m: Seq<SewerCell>, w: int, c: Seq<Classified>) -> bool {
    exists|rooms: Seq<Option<usize>>, nr: int, bodies: Seq<Option<usize>>, nb: int|
        #![trigger is_labelling(not_wall(m), w, rooms, nr), is_labelling(not_pool(m), w, bodies, nb)]
        is_labelling(not_wall(m), w, rooms, nr) && scan_ordered(rooms, nr) && is_labelling(
            not_pool(m),
            w,
            bodies,
            nb,
        ) && scan_ordered(bodies, nb) && forall|i: int|
            0 <= i < c.len() && (#[trigger] c[i]) is Floor ==> room_of(c[i]) == rooms[i].unwrap()
                && body_of(c[i]) == bodies[i].unwrap()
}

fn mask_not(m: &Vec<SewerCell>, cell: SewerCell) -> (r: Vec<bool>)
    ensures
        r@.len() == m@.len(),
        forall|i: int| 0 <= i < m@.len() ==> #[trigger] r@[i] == (m@[i] != cell),
{
    let mut out: Vec<bool> = Vec::new();
    let mut i: usize = 0;
    while i < m.len()
        invariant
            i <= m@.len(),
            out@.len() == i,
            forall|j: int| 0 <= j < i ==> #[trigger] out@[j] == (m@[j] != cell),
        decreases m@.len() - i,
    {
        out.push(m[i] != cell);
        i = i + 1;
    }
    out
}

/// Labels every floor cell with its room and its pool body.
pub fn classify_floor(m: &Vec<SewerCell>, w: usize, h: usize) -> (r: Vec<Classified>)
    requires
        dims_ok(w as int, h as int),
        m@.len() == w * h,
        is_terrain(m@),
    ensures
        is_classification(m@, w as int, r@),
        classified_ids(m@, w as int, r@),
{
    let walls = mask_not(m, SewerCell::Wall);
    let pools = mask_not(m, SewerCell::Pool);
    assert(walls@ =~= not_wall(m@));
    assert(pools@ =~= not_pool(m@));
    let (by_wall, nw) = label_regions(&walls, w);
    let (by_pool, np) = label_regions(&pools, w);
    let mut out: Vec<Classified> = Vec::new();
    let mut i: usize = 0;
    while i < m.len()
        invariant
            i <= m@.len(),
            is_terrain(m@),
            walls@ == not_wall(m@),
            pools@ == not_pool(m@),
            is_labelling(walls@, w as int, by_wall@, nw as int),
            is_labelling(pools@, w as int, by_pool@, np as int),
            out@.len() == i,
            by_wall@.len() == m@.len(),
            by_pool@.len() == m@.len(),
            forall|j: int| 0 <= j < m@.len() ==> (#[trigger] by_wall@[j]).is_some() == walls@[j],
            forall|j: int| 0 <= j < m@.len() ==> (#[trigger] by_pool@[j]).is_some() == pools@[j],
            forall|j: int|
                0 <= j < i ==> #[trigger] out@[j] == match m@[j] {
                    SewerCell::Wall => Classified::Wall,
                    SewerCell::Pool => Classified::Pool,
                    _ => Classified::Floor {
                        room: by_wall@[j].unwrap(),
                        body: by_pool@[j].unwrap(),
                    },
                },
        decreases m@.len() - i,
    {
        let v = match (by_wall[i], by_pool[i]) {
            (Some(room), Some(body)) => Classified::Floor { room, body },
            (Some(_), None) => Classified::Pool,
            _ => Classified::Wall,
        };
        out.push(v);
        i = i + 1;
    }
    proof {
        let c = out@;
        assert forall|i: int, j: int|
            0 <= i < c.len() && 0 <= j < c.len() && #[trigger] c[i] is Floor && #[trigger] c[j] is Floor
                implies {
            &&& (room_of(c[i]) == room_of(c[j])) == connected(not_wall(m@), w as int, i, j)
            &&& (body_of(c[i]) == body_of(c[j])) == connected(not_pool(m@), w as int, i, j)
        } by {
            assert(by_wall@[i].is_some() && by_wall@[j].is_some());
            assert(by_pool@[i].is_some() && by_pool@[j].is_some());
            assert((by_wall@[i] == by_wall@[j]) == connected(walls@, w as int, i, j));
            assert((by_pool@[i] == by_pool@[j]) == connected(pools@, w as int, i, j));
        }
    }
    proof {
        assert forall|i: int| 0 <= i < out@.len() && (#[trigger] out@[i]) is Floor implies room_of(out@[i])
            == by_wall@[i].unwrap() && body_of(out@[i]) == by_pool@[i].unwrap() by {}
        assert(is_labelling(not_wall(m@), w as int, by_wall@, nw as int) && scan_ordered(by_wall@, nw as int)
            && is_labelling(not_pool(m@), w as int, by_pool@, np as int) && scan_ordered(by_pool@, np as int));
    }
    out
}

} // verus!
