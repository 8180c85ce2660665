use crate::grid::{cell, connected, dims_ok, line_cell, line_index};
use crate::level::SewerCell;
use crate::regions::{body_of, is_classification, not_pool, not_wall, room_of, Classified};
use vstd::prelude::*;

verus! {

/// Both cells are floor and no flood fill over non-pool cells joins them.
pub open spec fn apart_bodies(t: Seq<SewerCell>, w: int, a: int, b: int) -> bool {
    t[a] == SewerCell::Floor && t[b] == SewerCell::Floor && !connected(not_pool(t), w, a, b)
}

/// Both cells are floor and no flood fill over non-wall cells joins them.
pub open spec fn apart_rooms(t: Seq<SewerCell>, w: int, a: int, b: int) -> bool {
    t[a] == SewerCell::Floor && t[b] == SewerCell::Floor && !connected(not_wall(t), w, a, b)
}

/// Cell `i` lies strictly between two floor cells of its row, or of its
/// column, that belong to different pool bodies, with only pool cells
/// between them.
pub open spec fn spans_bodies(t: Seq<SewerCell>, w: int, h: int, i: int) -> bool {
    let x = i % w;
    let y = i / w;
    (exists|x1: int, x2: int|
        0 <= x1 < x && x < x2 < w && #[trigger] apart_bodies(t, w, cell(w, x1, y), cell(w, x2, y))
            && forall|q: int| x1 < q < x2 ==> #[trigger] t[cell(w, q, y)] == SewerCell::Pool) || (
    exists|y1: int, y2: int|
        0 <= y1 < y && y < y2 < h && #[trigger] apart_bodies(t, w, cell(w, x, y1), cell(w, x, y2))
            && forall|q: int| y1 < q < y2 ==> #[trigger] t[cell(w, x, q)] == SewerCell::Pool)
}

/// Cell `i` is an inner cell whose two vertical, or two horizontal,
/// neighbours are floor cells of different rooms.
pub open spec fn splits_rooms(t: Seq<SewerCell>, w: int, h: int, i: int) -> bool {
    let x = i % w;
    let y = i / w;
    1 <= x && x + 1 < w && 1 <= y && y + 1 < h && (apart_rooms(t, w, i - w, i + w) || apart_rooms(
        t,
        w,
        i - 1,
        i + 1,
    ))
}

/// A strip of pool cells that a bridge could cross, and the pool bodies of
/// the floor cells at its two ends.
pub struct BridgeCandidate {
    pub coords: Vec<usize>,
    pub start: usize,
    pub end: usize,
}

/// A run of wall cells that a door could open, and the rooms on its two sides.
pub struct DoorCandidate {
    pub high: usize,
    pub low: usize,
    pub coords: Vec<usize>,
}

pub open spec fn bridge_ok(t: Seq<SewerCell>, w: int, h: int, b: BridgeCandidate) -> bool {
    &&& b.coords@.len() > 0
    &&& b.start != b.end
    &&& forall|q: int|
        0 <= q < b.coords@.len() ==> {
            &&& 0 <= #[trigger] b.coords@[q] < t.len()
            &&& t[b.coords@[q] as int] == SewerCell::Pool
            &&& spans_bodies(t, w, h, b.coords@[q] as int)
        }
}

pub open spec fn door_ok(t: Seq<SewerCell>, w: int, h: int, d: DoorCandidate) -> bool {
    &&& d.coords@.len() > 0
    &&& d.high != d.low
    &&& forall|q: int|
        0 <= q < d.coords@.len() ==> {
            &&& 0 <= #[trigger] d.coords@[q] < t.len()
            &&& t[d.coords@[q] as int] == SewerCell::Wall
            &&& splits_rooms(t, w, h, d.coords@[q] as int)
        }
}

/// The classified cell at position `pos` of line `line`.
pub open spec fn lc(c: Seq<Classified>, w: int, rows: bool, line: int, pos: int) -> Classified {
    c[line_cell(w, rows, line, pos)]
}

/// Position `p` of line `line` lies strictly inside the run from `a` to
/// `b`: pool cells only, with floor cells of different pool bodies at both
/// ends.
pub open spec fn bridge_site(
    c: Seq<Classified>,
    w: int,
    rows: bool,
    line: int,
    a: int,
    p: int,
    b: int,
) -> bool {
    &&& 0 <= a < p < b
    &&& lc(c, w, rows, line, a) is Floor
    &&& lc(c, w, rows, line, b) is Floor
    &&& body_of(lc(c, w, rows, line, a)) != body_of(lc(c, w, rows, line, b))
    &&& forall|q: int| a < q < b ==> #[trigger] lc(c, w, rows, line, q) == Classified::Pool
}

/// `cand` is the run of pool cells strictly between positions `a` and `b`
/// of line `line`, in scan order, with floor cells at both ends whose pool
/// bodies are `cand.start` and `cand.end`.
pub open spec fn bridge_run(
    c: Seq<Classified>,
    w: int,
    rows: bool,
    line: int,
    a: int,
    b: int,
    cand: BridgeCandidate,
) -> bool {
    &&& 0 <= a && a + 1 < b
    &&& lc(c, w, rows, line, a) is Floor
    &&& lc(c, w, rows, line, b) is Floor
    &&& body_of(lc(c, w, rows, line, a)) == cand.start
    &&& body_of(lc(c, w, rows, line, b)) == cand.end
    &&& cand.coords@.len() == b - a - 1
    &&& forall|q: int|
        0 <= q < cand.coords@.len() ==> #[trigger] cand.coords@[q] == line_cell(w, rows, line, a + 1 + q)
            && lc(c, w, rows, line, a + 1 + q) == Classified::Pool
}

/// `cand` is a run of pool cells on one of the lines of the scan.
pub open spec fn is_bridge_run(c: Seq<Classified>, w: int, rows: bool, lines: int, len: int, cand: BridgeCandidate) -> bool {
    exists|line: int, a: int, b: int|
        0 <= line < lines && b < len && #[trigger] bridge_run(c, w, rows, line, a, b, cand)
}

/// Some bridge candidate holds cell `i`.
pub open spec fn bridge_covers(bs: Seq<BridgeCandidate>, i: int) -> bool {
    exists|k: int, q: int|
        0 <= k < bs.len() && 0 <= q < bs[k].coords@.len() && #[trigger] bs[k].coords@[q] == i
}

proof fn lemma_bridge_covers_push(bs: Seq<BridgeCandidate>, b: BridgeCandidate)
    ensures
        forall|i: int| bridge_covers(bs, i) ==> bridge_covers(bs.push(b), i),
        forall|q: int| 0 <= q < b.coords@.len() ==> bridge_covers(bs.push(b), #[trigger] b.coords@[q] as int),
{
    assert forall|i: int| bridge_covers(bs, i) implies bridge_covers(bs.push(b), i) by {
        let (k, q) = choose|k: int, q: int|
            0 <= k < bs.len() && 0 <= q < bs[k].coords@.len() && #[trigger] bs[k].coords@[q] == i;
        assert(bs.push(b)[k] == bs[k]);
    }
    assert forall|q: int| 0 <= q < b.coords@.len() implies bridge_covers(bs.push(b), #[trigger] b.coords@[q] as int) by {
        assert(bs.push(b)[bs.len() as int] == b);
    }
}

/// Position of cell `i` in the scan: row by row when `rows` holds, else
/// column by column.
pub open spec fn scan_key(w: int, h: int, rows: bool, i: int) -> int {
    if rows {
        i
    } else {
        (i % w) * h + i / w
    }
}

/// Scan position of the first cell of a door candidate.
pub open spec fn door_key(w: int, h: int, rows: bool, d: DoorCandidate) -> int {
    scan_key(w, h, rows, d.coords@[0] as int)
}

/// Scan position of the first cell of a bridge candidate.
pub open spec fn bridge_key(w: int, h: int, rows: bool, b: BridgeCandidate) -> int {
    scan_key(w, h, rows, b.coords@[0] as int)
}

/// Scans every row (or every column) for runs of pool cells between two
/// floor cells of different pool bodies.
#[verifier::rlimit(100)]
pub fn bridge_candidates_axis(
    t: &Vec<SewerCell>,
    c: &Vec<Classified>,
    w: usize,
    h: usize,
    rows: bool,
) -> (r: Vec<BridgeCandidate>)
    requires
        dims_ok(w as int, h as int),
        c@.len() == w * h,
        is_classification(t@, w as int, c@),
    ensures
        forall|k: int| 0 <= k < r@.len() ==> bridge_ok(t@, w as int, h as int, #[trigger] r@[k]),
        forall|k: int|
            0 <= k < r@.len() ==> is_bridge_run(
                c@,
                w as int,
                rows,
                (if rows {
                    h
                } else {
                    w
                }) as int,
                (if rows {
                    w
                } else {
                    h
                }) as int,
                #[trigger] r@[k],
            ),
        forall|k1: int, k2: int|
            0 <= k1 < k2 < r@.len() ==> bridge_key(w as int, h as int, rows, #[trigger] r@[k1])
                < bridge_key(w as int, h as int, rows, #[trigger] r@[k2]),
        forall|line: int, a: int, p: int, b: int|
            0 <= line < (if rows {
                h
            } else {
                w
            }) && b < (if rows {
                w
            } else {
                h
            }) && #[trigger] bridge_site(c@, w as int, rows, line, a, p, b) ==> bridge_covers(
                r@,
                line_cell(w as int, rows, line, p),
            ),
{
    let ghost t = t@;
    let ghost wi = w as int;
    let ghost hi = h as int;
    let lines = if rows {
        h
    } else {
        w
    };
    let len = if rows {
        w
    } else {
        h
    };
    let mut out: Vec<BridgeCandidate> = Vec::new();
    let mut line: usize = 0;
    while line < lines
        invariant
            dims_ok(wi, hi),
            wi == w,
            hi == h,
            c@.len() == w * h,
            is_classification(t, wi, c@),
            lines == if rows {
                h
            } else {
                w
            },
            len == if rows {
                w
            } else {
                h
            },
            line <= lines,
            forall|k: int| 0 <= k < out@.len() ==> bridge_ok(t, wi, hi, #[trigger] out@[k]),
            forall|k: int| 0 <= k < out@.len() ==> is_bridge_run(c@, wi, rows, lines as int, len as int, #[trigger] out@[k]),
            forall|k1: int, k2: int|
                0 <= k1 < k2 < out@.len() ==> bridge_key(wi, hi, rows, #[trigger] out@[k1]) < bridge_key(
                    wi,
                    hi,
                    rows,
                    #[trigger] out@[k2],
                ),
            forall|k: int| 0 <= k < out@.len() ==> bridge_key(wi, hi, rows, #[trigger] out@[k]) < line * len,
            forall|l2: int, a: int, p: int, b: int|
                0 <= l2 < line && b < len && #[trigger] bridge_site(c@, wi, rows, l2, a, p, b)
                    ==> bridge_covers(out@, line_cell(wi, rows, l2, p)),
        decreases lines - line,
    {
        let mut start: Option<(usize, usize)> = None;
        let mut pool: Vec<usize> = Vec::new();
        let mut pos: usize = 0;
        while pos < len
            invariant
                dims_ok(wi, hi),
                wi == w,
                hi == h,
                c@.len() == w * h,
                is_classification(t, wi, c@),
                lines == if rows {
                    h
                } else {
                    w
                },
                len == if rows {
                    w
                } else {
                    h
                },
                line < lines,
                pos <= len,
                forall|k: int| 0 <= k < out@.len() ==> bridge_ok(t, wi, hi, #[trigger] out@[k]),
                forall|k: int| 0 <= k < out@.len() ==> is_bridge_run(c@, wi, rows, lines as int, len as int, #[trigger] out@[k]),
                forall|k1: int, k2: int|
                    0 <= k1 < k2 < out@.len() ==> bridge_key(wi, hi, rows, #[trigger] out@[k1]) < bridge_key(
                        wi,
                        hi,
                        rows,
                        #[trigger] out@[k2],
                    ),
                forall|k: int|
                    0 <= k < out@.len() ==> bridge_key(wi, hi, rows, #[trigger] out@[k]) < line * len + match start {
                        Some((sp, _)) => sp + 1,
                        None => pos as int,
                    },
                match start {
                    Some((sp, b)) => {
                        &&& sp < pos
                        &&& c@[line_cell(wi, rows, line as int, sp as int)] is Floor
                        &&& body_of(c@[line_cell(wi, rows, line as int, sp as int)]) == b
                        &&& pool@.len() == pos - sp - 1
                        &&& forall|q: int|
                            0 <= q < pool@.len() ==> #[trigger] pool@[q] == line_cell(
                                wi,
                                rows,
                                line as int,
                                sp + 1 + q,
                            ) && t[pool@[q] as int] == SewerCell::Pool
                        &&& forall|q: int|
                            sp < q < pos ==> #[trigger] lc(c@, wi, rows, line as int, q)
                                == Classified::Pool
                    },
                    None => {
                        &&& pool@.len() == 0
                        &&& forall|a: int|
                            0 <= a < pos && (#[trigger] lc(c@, wi, rows, line as int, a) is Floor)
                                ==> exists|q: int|
                                a < q < pos && #[trigger] lc(c@, wi, rows, line as int, q)
                                    == Classified::Wall
                    },
                },
                forall|l2: int, a: int, p: int, b: int|
                    0 <= l2 < line && b < len && #[trigger] bridge_site(c@, wi, rows, l2, a, p, b)
                        ==> bridge_covers(out@, line_cell(wi, rows, l2, p)),
                forall|a: int, p: int, b: int|
                    b < pos && #[trigger] bridge_site(c@, wi, rows, line as int, a, p, b)
                        ==> bridge_covers(out@, line_cell(wi, rows, line as int, p)),
            decreases len - pos,
        {
            let i = line_index(w, h, rows, line, pos);
            let ghost out0 = out@;
            let ghost start0 = start;
            let ghost pool0 = pool@;
            match c[i] {
                Classified::Floor { room: _, body: e } => {
                    match start {
                        Some((sp, b)) => {
                            if pool.len() > 0 && b != e {
                                let ghost a0 = line_cell(wi, rows, line as int, sp as int);
                                proof {
                                    if rows {
                                        crate::grid::lemma_cell(wi, hi, sp as int, line as int);
                                    } else {
                                        crate::grid::lemma_cell(wi, hi, line as int, sp as int);
                                    }
                                    assert(0 <= a0 < c@.len());
                                    assert(body_of(c@[i as int]) == e);
                                    assert(c@[a0] is Floor && c@[i as int] is Floor);
                                    assert(!connected(not_pool(t), wi, a0, i as int));
                                    assert forall|q: int| 0 <= q < pool@.len() implies {
                                        &&& 0 <= #[trigger] pool@[q] < t.len()
                                        &&& t[pool@[q] as int] == SewerCell::Pool
                                        &&& spans_bodies(t, wi, hi, pool@[q] as int)
                                    } by {
                                        let p = pool@[q] as int;
                                        let k = sp + 1 + q;
                                        if rows {
                                            crate::grid::lemma_cell(wi, hi, k, line as int);
                                            crate::grid::lemma_cell(wi, hi, sp as int, line as int);
                                            assert(apart_bodies(
                                                t,
                                                wi,
                                                cell(wi, sp as int, line as int),
                                                cell(wi, pos as int, line as int),
                                            ));
                                            assert forall|q2: int| sp < q2 < pos implies #[trigger] t[cell(
                                                wi,
                                                q2,
                                                line as int,
                                            )] == SewerCell::Pool by {
                                                crate::grid::lemma_cell(wi, hi, q2, line as int);
                                                assert(lc(c@, wi, rows, line as int, q2)
                                                    == Classified::Pool);
                                            }
                                        } else {
                                            crate::grid::lemma_cell(wi, hi, line as int, k);
                                            crate::grid::lemma_cell(wi, hi, line as int, sp as int);
                                            assert(apart_bodies(
                                                t,
                                                wi,
                                                cell(wi, line as int, sp as int),
                                                cell(wi, line as int, pos as int),
                                            ));
                                            assert forall|q2: int| sp < q2 < pos implies #[trigger] t[cell(
                                                wi,
                                                line as int,
                                                q2,
                                            )] == SewerCell::Pool by {
                                                crate::grid::lemma_cell(wi, hi, line as int, q2);
                                                assert(lc(c@, wi, rows, line as int, q2)
                                                    == Classified::Pool);
                                            }
                                        }
                                    }
                                }
                                let cand = BridgeCandidate { coords: pool, start: b, end: e };
                                proof {
                                    assert(bridge_run(c@, wi, rows, line as int, sp as int, pos as int, cand));
                                    assert(cand.coords@[0] == line_cell(wi, rows, line as int, sp + 1));
                                    if rows {
                                        crate::grid::lemma_cell(wi, hi, sp + 1, line as int);
                                    } else {
                                        crate::grid::lemma_cell(wi, hi, line as int, sp + 1);
                                    }
                                    assert(bridge_key(wi, hi, rows, cand) == line * len + sp + 1);
                                }
                                out.push(cand);
                                proof {
                                    assert forall|k1: int, k2: int|
                                        0 <= k1 < k2 < out@.len() implies bridge_key(wi, hi, rows, #[trigger] out@[k1])
                                        < bridge_key(wi, hi, rows, #[trigger] out@[k2]) by {
                                        assert(out@[k1] == out0[k1]);
                                        if k2 < out0.len() {
                                            assert(out@[k2] == out0[k2]);
                                        }
                                    }
                                    assert forall|k: int| 0 <= k < out@.len() implies bridge_key(wi, hi, rows, #[trigger] out@[k]) < line * len + pos + 1 by {
                                        if k < out0.len() {
                                            assert(out@[k] == out0[k]);
                                        }
                                    }
                                    lemma_bridge_covers_push(out0, cand);
                                    assert forall|k: int| 0 <= k < out@.len() implies is_bridge_run(c@, wi, rows, lines as int, len as int, #[trigger] out@[k]) by {
                                        if k < out0.len() {
                                            assert(out@[k] == out0[k]);
                                        }
                                    }
                                }
                                pool = Vec::new();
                            } else {
                                pool = Vec::new();
                            }
                        },
                        None => {
                            pool = Vec::new();
                        },
                    }
                    proof {
                        assert(lc(c@, wi, rows, line as int, pos as int) == c@[i as int]);
                        assert(body_of(c@[i as int]) == e);
                        assert forall|a: int, p: int, b: int|
                            b < pos + 1 && #[trigger] bridge_site(c@, wi, rows, line as int, a, p, b)
                                implies bridge_covers(out@, line_cell(wi, rows, line as int, p)) by {
                            if out@ != out0 {
                                lemma_bridge_covers_push(out0, out@.last());
                                assert(out@ == out0.push(out@.last()));
                            }
                            if b == pos {
                                match start0 {
                                    None => {
                                        let q = choose|q: int|
                                            a < q < pos && #[trigger] lc(c@, wi, rows, line as int, q)
                                                == Classified::Wall;
                                        assert(lc(c@, wi, rows, line as int, q) == Classified::Pool);
                                    },
                                    Some((sp, bd)) => {
                                        if a < sp {
                                            assert(lc(c@, wi, rows, line as int, sp as int)
                                                == Classified::Pool);
                                        } else if a > sp {
                                            assert(lc(c@, wi, rows, line as int, a) == Classified::Pool);
                                        } else {
                                            let q = p - sp - 1;
                                            assert(0 <= q < pool0.len());
                                            assert(pool0[q] == line_cell(wi, rows, line as int, p));
                                            assert(out@ == out0.push(out@.last()));
                                            assert(out@.last().coords@ == pool0);
                                            assert(bridge_covers(out@, out@.last().coords@[q] as int));
                                        }
                                    },
                                }
                            }
                        }
                    }
                    start = Some((pos, e));
                },
                Classified::Wall => {
                    start = None;
                    pool = Vec::new();
                    proof {
                        assert(lc(c@, wi, rows, line as int, pos as int) == Classified::Wall);
                        assert forall|a: int|
                            0 <= a < pos + 1 && (#[trigger] lc(c@, wi, rows, line as int, a) is Floor)
                                implies exists|q: int|
                                a < q < pos + 1 && #[trigger] lc(c@, wi, rows, line as int, q)
                                    == Classified::Wall by {
                            assert(lc(c@, wi, rows, line as int, pos as int) == Classified::Wall);
                        }
                    }
                },
                Classified::Pool => {
                    if start.is_some() {
                        pool.push(i);
                    }
                    proof {
                        assert(lc(c@, wi, rows, line as int, pos as int) == Classified::Pool);
                        if start is None {
                            assert forall|a: int|
                                0 <= a < pos + 1 && (#[trigger] lc(c@, wi, rows, line as int, a) is Floor)
                                    implies exists|q: int|
                                    a < q < pos + 1 && #[trigger] lc(c@, wi, rows, line as int, q)
                                        == Classified::Wall by {
                                let q = choose|q: int|
                                    a < q < pos && #[trigger] lc(c@, wi, rows, line as int, q)
                                        == Classified::Wall;
                            }
                        }
                    }
                },
            }
            pos = pos + 1;
        }
        proof {
            assert(line * len + len == (line + 1) * len) by (nonlinear_arith);
        }
        line = line + 1;
    }
    out
}

/// The cell at position `pos` of line `line` is a wall whose two neighbours
/// across the line are floor cells of different rooms.
pub open spec fn door_site(c: Seq<Classified>, w: int, rows: bool, line: int, pos: int) -> bool {
    let i = line_cell(w, rows, line, pos);
    let s = if rows {
        w
    } else {
        1
    };
    &&& c[i] == Classified::Wall
    &&& c[i + s] is Floor
    &&& c[i - s] is Floor
    &&& room_of(c[i + s]) != room_of(c[i - s])
}

/// `d` holds the consecutive positions `p0`, `p0 + 1`, ... of line `line`,
/// each a wall whose two neighbours across the line are floor cells of the
/// rooms `d.high` and `d.low`.
pub open spec fn door_run(c: Seq<Classified>, w: int, rows: bool, line: int, p0: int, d: DoorCandidate) -> bool {
    let s = if rows {
        w
    } else {
        1
    };
    &&& d.coords@.len() > 0
    &&& 1 <= p0
    &&& forall|q: int|
        0 <= q < d.coords@.len() ==> #[trigger] d.coords@[q] == line_cell(w, rows, line, p0 + q)
            && door_site(c, w, rows, line, p0 + q) && room_of(c[line_cell(w, rows, line, p0 + q) + s])
            == d.high && room_of(c[line_cell(w, rows, line, p0 + q) - s]) == d.low
}

/// `d` is a run of door sites on one of the inner lines of the scan.
pub open spec fn is_door_run(c: Seq<Classified>, w: int, rows: bool, lines: int, len: int, d: DoorCandidate) -> bool {
    exists|line: int, p0: int|
        1 <= line && line + 1 < lines && p0 + d.coords@.len() < len && #[trigger] door_run(c, w, rows, line, p0, d)
}

/// Some door candidate holds cell `i`.
pub open spec fn door_covers(ds: Seq<DoorCandidate>, i: int) -> bool {
    exists|k: int, q: int|
        0 <= k < ds.len() && 0 <= q < ds[k].coords@.len() && #[trigger] ds[k].coords@[q] == i
}

pub open spec fn holds_cell(cur: Option<DoorCandidate>, i: int) -> bool {
    match cur {
        Some(d) => exists|q: int| 0 <= q < d.coords@.len() && d.coords@[q] == i,
        None => false,
    }
}

proof fn lemma_covers_push(ds: Seq<DoorCandidate>, d: DoorCandidate)
    ensures
        forall|i: int| door_covers(ds, i) ==> door_covers(ds.push(d), i),
        forall|i: int| holds_cell(Some(d), i) ==> door_covers(ds.push(d), i),
{
    assert forall|i: int| door_covers(ds, i) implies door_covers(ds.push(d), i) by {
        let (k, q) = choose|k: int, q: int|
            0 <= k < ds.len() && 0 <= q < ds[k].coords@.len() && #[trigger] ds[k].coords@[q] == i;
        assert(ds.push(d)[k] == ds[k]);
    }
    assert forall|i: int| holds_cell(Some(d), i) implies door_covers(ds.push(d), i) by {
        let q = choose|q: int| 0 <= q < d.coords@.len() && d.coords@[q] == i;
        assert(ds.push(d)[ds.len() as int] == d);
    }
}

/// One step of the door scan keeps every cell seen so far in the output or
/// in the run in progress.
proof fn lemma_door_step(
    out0: Seq<DoorCandidate>,
    out1: Seq<DoorCandidate>,
    cur0: Option<DoorCandidate>,
    cur1: Option<DoorCandidate>,
    i: int,
    site: bool,
)
    requires
        out1 == out0 || (cur0 matches Some(d) && out1 == out0.push(d)),
        site ==> holds_cell(cur1, i),
        site && out1 == out0 ==> (cur0 matches Some(d0) && cur1 matches Some(d1) && d1.coords@
            == d0.coords@.push(i as usize)) || cur0 is None,
        !site ==> cur1 is None && (cur0 matches Some(d) ==> out1 == out0.push(d)),
    ensures
        forall|j: int| door_covers(out0, j) ==> door_covers(out1, j),
        forall|j: int| holds_cell(cur0, j) ==> door_covers(out1, j) || holds_cell(cur1, j),
        site ==> holds_cell(cur1, i),
{
    if let Some(d) = cur0 {
        lemma_covers_push(out0, d);
    }
    if site && out1 == out0 {
        if let Some(d0) = cur0 {
            let d1 = cur1.unwrap();
            assert forall|j: int| holds_cell(cur0, j) implies holds_cell(cur1, j) by {
                let q = choose|q: int| 0 <= q < d0.coords@.len() && d0.coords@[q] == j;
                assert(d1.coords@[q] == j);
            }
        }
    }
}

proof fn lemma_door_key(c: Seq<Classified>, w: int, h: int, rows: bool, line: int, p0: int, d: DoorCandidate)
    requires
        dims_ok(w, h),
        door_run(c, w, rows, line, p0, d),
        0 <= line < (if rows {
            h
        } else {
            w
        }),
        p0 < (if rows {
            w
        } else {
            h
        }),
    ensures
        door_key(w, h, rows, d) == line * (if rows {
            w
        } else {
            h
        }) + p0,
{
    assert(d.coords@[0] == line_cell(w, rows, line, p0));
    if rows {
        crate::grid::lemma_cell(w, h, p0, line);
    } else {
        crate::grid::lemma_cell(w, h, line, p0);
    }
}

proof fn lemma_door_order_push(w: int, h: int, rows: bool, out0: Seq<DoorCandidate>, d: DoorCandidate)
    requires
        forall|k1: int, k2: int|
            0 <= k1 < k2 < out0.len() ==> door_key(w, h, rows, #[trigger] out0[k1]) < door_key(w, h, rows, #[trigger] out0[k2]),
        forall|k: int| 0 <= k < out0.len() ==> door_key(w, h, rows, #[trigger] out0[k]) < door_key(w, h, rows, d),
    ensures
        forall|k1: int, k2: int|
            0 <= k1 < k2 < out0.push(d).len() ==> door_key(w, h, rows, #[trigger] out0.push(d)[k1]) < door_key(
                w,
                h,
                rows,
                #[trigger] out0.push(d)[k2],
            ),
        forall|k: int|
            0 <= k < out0.push(d).len() ==> door_key(w, h, rows, #[trigger] out0.push(d)[k]) <= door_key(w, h, rows, d),
{
    let o = out0.push(d);
    assert forall|k1: int, k2: int| 0 <= k1 < k2 < o.len() implies door_key(w, h, rows, #[trigger] o[k1]) < door_key(w, h, rows, #[trigger] o[k2]) by {
        assert(o[k1] == out0[k1]);
        if k2 < out0.len() {
            assert(o[k2] == out0[k2]);
        }
    }
    assert forall|k: int| 0 <= k < o.len() implies door_key(w, h, rows, #[trigger] o[k]) <= door_key(w, h, rows, d) by {
        if k < out0.len() {
            assert(o[k] == out0[k]);
        }
    }
}

/// Scans the inner rows (or inner columns) for runs of wall cells whose two
/// neighbours across the run are floor cells of two different rooms, the
/// same two rooms along the whole run.
#[verifier::rlimit(100)]
pub fn door_candidates_axis(
    t: &Vec<SewerCell>,
    c: &Vec<Classified>,
    w: usize,
    h: usize,
    rows: bool,
) -> (r: Vec<DoorCandidate>)
    requires
        dims_ok(w as int, h as int),
        c@.len() == w * h,
        is_classification(t@, w as int, c@),
    ensures
        forall|k: int| 0 <= k < r@.len() ==> door_ok(t@, w as int, h as int, #[trigger] r@[k]),
        forall|k: int|
            0 <= k < r@.len() ==> is_door_run(
                c@,
                w as int,
                rows,
                (if rows {
                    h
                } else {
                    w
                }) as int,
                (if rows {
                    w
                } else {
                    h
                }) as int,
                #[trigger] r@[k],
            ),
        forall|k1: int, k2: int|
            0 <= k1 < k2 < r@.len() ==> door_key(w as int, h as int, rows, #[trigger] r@[k1])
                < door_key(w as int, h as int, rows, #[trigger] r@[k2]),
        forall|line: int, pos: int|
            1 <= line && line + 1 < (if rows {
                h
            } else {
                w
            }) && 1 <= pos && pos + 1 < (if rows {
                w
            } else {
                h
            }) && #[trigger] door_site(c@, w as int, rows, line, pos) ==> door_covers(
                r@,
                line_cell(w as int, rows, line, pos),
            ),
{
    let ghost t = t@;
    let ghost wi = w as int;
    let ghost hi = h as int;
    let lines = if rows {
        h
    } else {
        w
    };
    let len = if rows {
        w
    } else {
        h
    };
    let step = if rows {
        w
    } else {
        1
    };
    let mut out: Vec<DoorCandidate> = Vec::new();
    let mut line: usize = 1;
    while line + 1 < lines
        invariant
            dims_ok(wi, hi),
            wi == w,
            hi == h,
            c@.len() == w * h,
            is_classification(t, wi, c@),
            lines == if rows {
                h
            } else {
                w
            },
            len == if rows {
                w
            } else {
                h
            },
            step == if rows {
                w
            } else {
                1
            },
            1 <= line < lines,
            forall|k: int| 0 <= k < out@.len() ==> door_ok(t, wi, hi, #[trigger] out@[k]),
            forall|k: int| 0 <= k < out@.len() ==> is_door_run(c@, wi, rows, lines as int, len as int, #[trigger] out@[k]),
            forall|k1: int, k2: int|
                0 <= k1 < k2 < out@.len() ==> door_key(wi, hi, rows, #[trigger] out@[k1]) < door_key(
                    wi,
                    hi,
                    rows,
                    #[trigger] out@[k2],
                ),
            forall|k: int| 0 <= k < out@.len() ==> door_key(wi, hi, rows, #[trigger] out@[k]) < line * len,
            forall|l2: int, p2: int|
                1 <= l2 < line && 1 <= p2 && p2 + 1 < len && #[trigger] door_site(c@, wi, rows, l2, p2)
                    ==> door_covers(out@, line_cell(wi, rows, l2, p2)),
        decreases lines - line,
    {
        let mut cur: Option<DoorCandidate> = None;
        let mut pos: usize = 1;
        while pos + 1 < len
            invariant
                dims_ok(wi, hi),
                wi == w,
                hi == h,
                c@.len() == w * h,
                is_classification(t, wi, c@),
                lines == if rows {
                    h
                } else {
                    w
                },
                len == if rows {
                    w
                } else {
                    h
                },
                step == if rows {
                    w
                } else {
                    1
                },
                1 <= line,
                line + 1 < lines,
                1 <= pos < len,
                forall|k: int| 0 <= k < out@.len() ==> door_ok(t, wi, hi, #[trigger] out@[k]),
                forall|k: int| 0 <= k < out@.len() ==> is_door_run(c@, wi, rows, lines as int, len as int, #[trigger] out@[k]),
                forall|k1: int, k2: int|
                    0 <= k1 < k2 < out@.len() ==> door_key(wi, hi, rows, #[trigger] out@[k1]) < door_key(
                        wi,
                        hi,
                        rows,
                        #[trigger] out@[k2],
                    ),
                forall|k: int|
                    0 <= k < out@.len() ==> door_key(wi, hi, rows, #[trigger] out@[k]) < line * len + match cur {
                        Some(d) => pos - d.coords@.len(),
                        None => pos as int,
                    },
                match cur {
                    Some(d) => door_ok(t, wi, hi, d) && d.coords@.len() < pos && door_run(
                        c@,
                        wi,
                        rows,
                        line as int,
                        pos - d.coords@.len(),
                        d,
                    ),
                    None => true,
                },
                forall|l2: int, p2: int|
                    1 <= l2 < line && 1 <= p2 && p2 + 1 < len && #[trigger] door_site(c@, wi, rows, l2, p2)
                        ==> door_covers(out@, line_cell(wi, rows, l2, p2)),
                forall|p2: int|
                    1 <= p2 < pos && #[trigger] door_site(c@, wi, rows, line as int, p2) ==> door_covers(
                        out@,
                        line_cell(wi, rows, line as int, p2),
                    ) || holds_cell(cur, line_cell(wi, rows, line as int, p2)),
            decreases len - pos,
        {
            let i = line_index(w, h, rows, line, pos);
            let mut site: Option<(usize, usize)> = None;
            if c[i] == Classified::Wall {
                proof {
                    if rows {
                        crate::grid::lemma_cell(wi, hi, pos as int, line as int);
                        crate::grid::lemma_cell(wi, hi, pos as int, line - 1);
                        crate::grid::lemma_cell(wi, hi, pos as int, line + 1);
                    } else {
                        crate::grid::lemma_cell(wi, hi, line as int, pos as int);
                    }
                }
                let hi_i = i + step;
                let lo_i = i - step;
                match (c[hi_i], c[lo_i]) {
                    (
                        Classified::Floor { room: high, body: _ },
                        Classified::Floor { room: low, body: _ },
                    ) => {
                        if high != low {
                            proof {
                                assert(c@[hi_i as int] is Floor && c@[lo_i as int] is Floor);
                                assert(room_of(c@[hi_i as int]) != room_of(c@[lo_i as int]));
                                assert(!connected(not_wall(t), wi, lo_i as int, hi_i as int));
                                assert(splits_rooms(t, wi, hi, i as int));
                            }
                            site = Some((high, low));
                        }
                    },
                    _ => {},
                }
            }
            assert(site is Some == door_site(c@, wi, rows, line as int, pos as int));
            let ghost out0 = out@;
            let ghost cur0 = cur;
            match site {
                Some((high, low)) => {
                    match cur {
                        Some(mut d) => {
                            if d.high == high && d.low == low {
                                let ghost dc0 = d.coords@;
                                d.coords.push(i);
                                proof {
                                    let p0 = pos - dc0.len();
                                    assert forall|q: int| 0 <= q < d.coords@.len() implies #[trigger] d.coords@[q]
                                        == line_cell(wi, rows, line as int, p0 + q) && door_site(c@, wi, rows, line as int, p0 + q)
                                        && room_of(c@[line_cell(wi, rows, line as int, p0 + q) + (if rows { wi } else { 1 })]) == d.high
                                        && room_of(c@[line_cell(wi, rows, line as int, p0 + q) - (if rows { wi } else { 1 })]) == d.low by {
                                        if q < dc0.len() {
                                            assert(d.coords@[q] == dc0[q]);
                                        }
                                    }
                                }
                                let ghost last = d.coords@.len() - 1;
                                assert(d.coords@[last] == i);
                                cur = Some(d);
                                assert(0 <= last < cur->0.coords@.len() && cur->0.coords@[last] == i as int);
                                assert(holds_cell(cur, i as int));
                            } else {
                                proof {
                                    assert(door_run(c@, wi, rows, line as int, pos - d.coords@.len(), d));
                                    lemma_door_key(c@, wi, hi, rows, line as int, pos - d.coords@.len(), d);
                                }
                                out.push(d);
                                proof {
                                    lemma_door_order_push(wi, hi, rows, out0, d);
                                    assert forall|k: int| 0 <= k < out@.len() implies is_door_run(c@, wi, rows, lines as int, len as int, #[trigger] out@[k]) by {
                                        if k < out0.len() {
                                            assert(out@[k] == out0[k]);
                                        }
                                    }
                                }
                                let mut coords: Vec<usize> = Vec::new();
                                coords.push(i);
                                assert(coords@[0] == i);
                                cur = Some(DoorCandidate { high, low, coords });
                                assert(0 < cur->0.coords@.len() && cur->0.coords@[0] == i as int);
                                assert(holds_cell(cur, i as int));
                            }
                        },
                        None => {
                            let mut coords: Vec<usize> = Vec::new();
                            coords.push(i);
                            assert(coords@[0] == i);
                            cur = Some(DoorCandidate { high, low, coords });
                            assert(0 < cur->0.coords@.len() && cur->0.coords@[0] == i as int);
                            assert(holds_cell(cur, i as int));
                        },
                    }
                },
                None => {
                    match cur {
                        Some(d) => {
                            proof {
                                assert(door_run(c@, wi, rows, line as int, pos - d.coords@.len(), d));
                                lemma_door_key(c@, wi, hi, rows, line as int, pos - d.coords@.len(), d);
                            }
                            out.push(d);
                            proof {
                                lemma_door_order_push(wi, hi, rows, out0, d);
                                assert forall|k: int| 0 <= k < out@.len() implies is_door_run(c@, wi, rows, lines as int, len as int, #[trigger] out@[k]) by {
                                    if k < out0.len() {
                                        assert(out@[k] == out0[k]);
                                    }
                                }
                            }
                        },
                        None => {},
                    }
                    cur = None;
                },
            }
            proof {
                let i = line_cell(wi, rows, line as int, pos as int);
                lemma_door_step(out0, out@, cur0, cur, i, site is Some);
            }
            pos = pos + 1;
        }
        let ghost out0 = out@;
        let ghost cur0 = cur;
        match cur {
            Some(d) => {
                proof {
                    assert(door_run(c@, wi, rows, line as int, pos - d.coords@.len(), d));
                    lemma_door_key(c@, wi, hi, rows, line as int, pos - d.coords@.len(), d);
                }
                out.push(d);
                proof {
                    lemma_door_order_push(wi, hi, rows, out0, d);
                    lemma_covers_push(out0, d);
                    assert forall|k: int| 0 <= k < out@.len() implies is_door_run(c@, wi, rows, lines as int, len as int, #[trigger] out@[k]) by {
                        if k < out0.len() {
                            assert(out@[k] == out0[k]);
                        }
                    }
                }
            },
            None => {},
        }
        proof {
            assert forall|l2: int, p2: int|
                1 <= l2 < line + 1 && 1 <= p2 && p2 + 1 < len && #[trigger] door_site(c@, wi, rows, l2, p2)
                    implies door_covers(out@, line_cell(wi, rows, l2, p2)) by {
                if l2 < line {
                } else {
                    assert(door_site(c@, wi, rows, line as int, p2));
                }
            }
        }
        proof {
            assert(line * len + len == (line + 1) * len) by (nonlinear_arith);
        }
        line = line + 1;
    }
    out
}

} // verus!
