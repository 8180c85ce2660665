use crate::candidates::{BridgeCandidate, DoorCandidate};
use crate::outside::{random_below, shuffle};
use rand_isaac::Isaac64Rng;
use vstd::prelude::*;

verus! {

/// The two candidates join the same unordered pair of pool bodies.
pub open spec fn same_sides(a: BridgeCandidate, b: BridgeCandidate) -> bool {
    (a.start == b.start && a.end == b.end) || (a.start == b.end && a.end == b.start)
}

/// Candidate `j` comes before candidate `k` of its group once the group is
/// sorted by length, ties kept in list order.
pub open spec fn ranks_before(cs: Seq<BridgeCandidate>, j: int, k: int) -> bool {
    same_sides(cs[j], cs[k]) && (cs[j].coords@.len() < cs[k].coords@.len() || (
    cs[j].coords@.len() == cs[k].coords@.len() && j < k))
}

/// How many of the first `m` candidates rank before candidate `k`.
pub open spec fn count_before(cs: Seq<BridgeCandidate>, k: int, m: int) -> nat
    decreases m,
{
    if m <= 0 {
        0
    } else {
        count_before(cs, k, m - 1) + if ranks_before(cs, m - 1, k) {
            1nat
        } else {
            0nat
        }
    }
}

/// How many of the first `m` candidates join the same pair as candidate `k`.
pub open spec fn count_sides(cs: Seq<BridgeCandidate>, k: int, m: int) -> nat
    decreases m,
{
    if m <= 0 {
        0
    } else {
        count_sides(cs, k, m - 1) + if same_sides(cs[m - 1], cs[k]) {
            1nat
        } else {
            0nat
        }
    }
}

/// Candidate `k` is in the shorter half of its group (the larger half when
/// the group has an odd size).
pub open spec fn bridge_kept(cs: Seq<BridgeCandidate>, k: int) -> bool {
    let g = count_sides(cs, k, cs.len() as int);
    count_before(cs, k, cs.len() as int) < g - g / 2
}

/// Groups the bridge candidates by the pair of pool bodies they join, sorts
/// each group by length and keeps its shorter half. Says, for each
/// candidate, whether it is kept.
pub fn prune_bridges(cs: &Vec<BridgeCandidate>) -> (r: Vec<bool>)
    ensures
        r@.len() == cs@.len(),
        forall|k: int| 0 <= k < cs@.len() ==> #[trigger] r@[k] == bridge_kept(cs@, k),
{
    let n = cs.len();
    let mut out: Vec<bool> = Vec::new();
    let mut k: usize = 0;
    while k < n
        invariant
            n == cs@.len(),
            k <= n,
            out@.len() == k,
            forall|q: int| 0 <= q < k ==> #[trigger] out@[q] == bridge_kept(cs@, q),
        decreases n - k,
    {
        let mut before: usize = 0;
        let mut group: usize = 0;
        let mut j: usize = 0;
        while j < n
            invariant
                n == cs@.len(),
                k < n,
                j <= n,
                before <= j,
                group <= j,
                before == count_before(cs@, k as int, j as int),
                group == count_sides(cs@, k as int, j as int),
            decreases n - j,
        {
            let a = &cs[j];
            let b = &cs[k];
            let same = (a.start == b.start && a.end == b.end) || (a.start == b.end && a.end
                == b.start);
            if same {
                group = group + 1;
                let la = a.coords.len();
                let lb = b.coords.len();
                if la < lb || (la == lb && j < k) {
                    before = before + 1;
                }
            }
            j = j + 1;
        }
        out.push(before < group - group / 2);
        k = k + 1;
    }
    out
}

/// Number of set flags.
pub open spec fn count_true(s: Seq<bool>) -> nat
    decreases s.len(),
{
    if s.len() == 0 {
        0
    } else {
        count_true(s.drop_last()) + if s.last() {
            1nat
        } else {
            0nat
        }
    }
}

proof fn lemma_count_true_le(s: Seq<bool>)
    ensures
        count_true(s) <= s.len(),
    decreases s.len(),
{
    if s.len() > 0 {
        lemma_count_true_le(s.drop_last());
    }
}

proof fn lemma_count_true_none(s: Seq<bool>)
    requires
        forall|i: int| 0 <= i < s.len() ==> !s[i],
    ensures
        count_true(s) == 0,
    decreases s.len(),
{
    if s.len() > 0 {
        lemma_count_true_none(s.drop_last());
    }
}

proof fn lemma_count_true_some(s: Seq<bool>)
    requires
        count_true(s) > 0,
    ensures
        exists|i: int| 0 <= i < s.len() && s[i],
    decreases s.len(),
{
    if !s.last() {
        lemma_count_true_some(s.drop_last());
        let i = choose|i: int| 0 <= i < s.drop_last().len() && s.drop_last()[i];
        assert(s[i]);
    }
}

proof fn lemma_set_flag(s: Seq<bool>, i: int)
    requires
        0 <= i < s.len(),
        !s[i],
    ensures
        count_true(s.update(i, true)) == count_true(s) + 1,
    decreases s.len(),
{
    let t = s.update(i, true);
    if i == s.len() - 1 {
        assert(t.drop_last() =~= s.drop_last());
    } else {
        assert(t.drop_last() =~= s.drop_last().update(i, true));
        lemma_set_flag(s.drop_last(), i);
    }
}

fn holds(v: &Vec<usize>, x: usize) -> (r: bool)
    ensures
        r == v@.contains(x),
{
    let mut i: usize = 0;
    while i < v.len()
        invariant
            i <= v@.len(),
            forall|j: int| 0 <= j < i ==> v@[j] != x,
        decreases v@.len() - i,
    {
        if v[i] == x {
            return true;
        }
        i = i + 1;
    }
    false
}

/// The door candidate touches `room` at one of its ends.
pub open spec fn touches(d: DoorCandidate, room: usize) -> bool {
    d.low == room || d.high == room
}

/// Pushes onto `to_visit` every door candidate with an end at `room` whose
/// other end is not yet in `visited`, in list order.
fn push_edges(
    ds: &Vec<DoorCandidate>,
    room: usize,
    visited: &Vec<usize>,
    to_visit: &mut Vec<usize>,
)
    requires
        forall|q: int| 0 <= q < old(to_visit)@.len() ==> #[trigger] old(to_visit)@[q] < ds@.len(),
        visited@.contains(room),
    ensures
        forall|q: int| 0 <= q < final(to_visit)@.len() ==> #[trigger] final(to_visit)@[q] < ds@.len(),
        forall|x: usize| old(to_visit)@.contains(x) ==> final(to_visit)@.contains(x),
        final(to_visit)@.len() >= old(to_visit)@.len(),
        forall|q: int| 0 <= q < old(to_visit)@.len() ==> #[trigger] final(to_visit)@[q] == old(to_visit)@[q],
        forall|q: int|
            old(to_visit)@.len() <= q < final(to_visit)@.len() ==> touches(ds@[#[trigger] final(to_visit)@[q] as int], room),
        forall|j: int|
            0 <= j < ds@.len() && touches(#[trigger] ds@[j], room) ==> (visited@.contains(ds@[j].low)
                && visited@.contains(ds@[j].high)) || final(to_visit)@.contains(j as usize),
{
    let ghost tv0 = to_visit@;
    let mut j: usize = 0;
    while j < ds.len()
        invariant
            j <= ds@.len(),
            visited@.contains(room),
            forall|q: int| 0 <= q < to_visit@.len() ==> #[trigger] to_visit@[q] < ds@.len(),
            forall|x: usize| tv0.contains(x) ==> to_visit@.contains(x),
            to_visit@.len() >= tv0.len(),
            forall|q: int| 0 <= q < tv0.len() ==> #[trigger] to_visit@[q] == tv0[q],
            forall|q: int|
                tv0.len() <= q < to_visit@.len() ==> touches(ds@[#[trigger] to_visit@[q] as int], room),
            forall|jj: int|
                0 <= jj < j && touches(#[trigger] ds@[jj], room) ==> (visited@.contains(ds@[jj].low)
                    && visited@.contains(ds@[jj].high)) || to_visit@.contains(jj as usize),
        decreases ds@.len() - j,
    {
        let ghost before = to_visit@;
        let d = &ds[j];
        if d.low == room {
            if !holds(visited, d.high) {
                to_visit.push(j);
            }
        } else if d.high == room {
            if !holds(visited, d.low) {
                to_visit.push(j);
            }
        }
        proof {
            assert forall|x: usize| before.contains(x) implies to_visit@.contains(x) by {
                let q = choose|q: int| 0 <= q < before.len() && before[q] == x;
                assert(to_visit@[q] == x);
            }
            if to_visit@.len() > before.len() {
                assert(to_visit@[before.len() as int] == j);
            }
        }
        j = j + 1;
    }
}

/// Every door candidate with one end at a room that the tree reaches has its
/// other end reached too: the tree reaches every room that the candidates
/// connect to the rooms it reaches.
pub open spec fn spans(ds: Seq<DoorCandidate>, tree: Seq<bool>) -> bool {
    forall|j: int|
        0 <= j < ds.len() && (reached(ds, tree, (#[trigger] ds[j]).low) || reached(
            ds,
            tree,
            ds[j].high,
        )) ==> reached(ds, tree, ds[j].low) && reached(ds, tree, ds[j].high)
}

/// Each door of the tree reached one new room: the tree reaches exactly one
/// room more than it has doors.
pub open spec fn tree_sized(ds: Seq<DoorCandidate>, tree: Seq<bool>) -> bool {
    exists|rooms: Seq<usize>|
        #![trigger rooms.no_duplicates()]
        rooms.no_duplicates() && (forall|x: usize| rooms.contains(x) <==> reached(ds, tree, x))
            && rooms.len() == count_true(tree) + 1
}

/// Some door of the tree touches `room`.
pub open spec fn reached(ds: Seq<DoorCandidate>, tree: Seq<bool>, room: usize) -> bool {
    exists|k: int| 0 <= k < tree.len() && tree[k] && touches(ds[k], room)
}

proof fn lemma_step_reached(
    ds: Seq<DoorCandidate>,
    tree0: Seq<bool>,
    tree1: Seq<bool>,
    vis0: Seq<usize>,
    vis1: Seq<usize>,
    id: int,
    admitted: bool,
)
    requires
        0 <= id < ds.len(),
        tree0.len() == ds.len(),
        tree1 == if admitted {
            tree0.update(id, true)
        } else {
            tree0
        },
        forall|x: usize|
            vis1.contains(x) && !vis0.contains(x) ==> admitted && touches(ds[id], x),
        forall|x: usize| vis0.contains(x) ==> reached(ds, tree0, x),
    ensures
        forall|x: usize| vis1.contains(x) ==> reached(ds, tree1, x),
{
    assert forall|x: usize| vis1.contains(x) implies reached(ds, tree1, x) by {
        if vis0.contains(x) {
            let k = choose|k: int| 0 <= k < tree0.len() && tree0[k] && touches(ds[k], x);
            assert(tree1[k]);
        } else {
            assert(tree1[id]);
        }
    }
}

proof fn lemma_step_closed(
    ds: Seq<DoorCandidate>,
    vis0: Seq<usize>,
    vis1: Seq<usize>,
    tv_full: Seq<usize>,
    tv1: Seq<usize>,
    id: int,
)
    requires
        0 <= id < ds.len(),
        ds.len() <= usize::MAX,
        vis1.contains(ds[id].low),
        vis1.contains(ds[id].high),
        forall|x: usize| vis0.contains(x) ==> vis1.contains(x),
        forall|x: usize| tv_full.contains(x) && x != id ==> tv1.contains(x),
        forall|x: usize, j: int|
            vis1.contains(x) && !vis0.contains(x) && 0 <= j < ds.len() && #[trigger] touches(ds[j], x)
                ==> (vis1.contains(ds[j].low) && vis1.contains(ds[j].high)) || tv1.contains(
                j as usize,
            ),
        forall|x: usize, j: int|
            vis0.contains(x) && 0 <= j < ds.len() && #[trigger] touches(ds[j], x) ==> (vis0.contains(
                ds[j].low,
            ) && vis0.contains(ds[j].high)) || tv_full.contains(j as usize),
    ensures
        forall|x: usize, j: int|
            vis1.contains(x) && 0 <= j < ds.len() && #[trigger] touches(ds[j], x) ==> (vis1.contains(
                ds[j].low,
            ) && vis1.contains(ds[j].high)) || tv1.contains(j as usize),
{
    assert forall|x: usize, j: int|
        vis1.contains(x) && 0 <= j < ds.len() && #[trigger] touches(ds[j], x) implies (vis1.contains(
            ds[j].low,
        ) && vis1.contains(ds[j].high)) || tv1.contains(j as usize) by {
        if j == id {
            assert(vis1.contains(ds[j].low) && vis1.contains(ds[j].high));
        } else if vis0.contains(x) {
            if vis0.contains(ds[j].low) && vis0.contains(ds[j].high) {
                assert(vis1.contains(ds[j].low));
                assert(vis1.contains(ds[j].high));
            } else {
                assert(tv_full.contains(j as usize));
                assert((j as usize) as int != id);
                assert(tv1.contains(j as usize));
            }
        }
    }
}

proof fn lemma_step_sized(
    vis0: Seq<usize>,
    vis1: Seq<usize>,
    vis2: Seq<usize>,
    low: usize,
    high: usize,
    new_low: bool,
    new_high: bool,
    admitted0: int,
)
    requires
        vis0.no_duplicates(),
        low != high,
        admitted0 >= 0,
        new_low == !vis0.contains(low),
        vis1 == if new_low { vis0.push(low) } else { vis0 },
        new_high == !vis1.contains(high),
        vis2 == if new_high { vis1.push(high) } else { vis1 },
        admitted0 == 0 ==> vis0.len() == 0,
        admitted0 > 0 ==> vis0.len() == admitted0 + 1,
        admitted0 > 0 ==> vis0.contains(low) || vis0.contains(high),
    ensures
        vis2.no_duplicates(),
        (new_low || new_high) ==> vis2.len() == admitted0 + 2,
        !(new_low || new_high) ==> vis2 == vis0 && admitted0 > 0,
{
    if vis0.len() == 0 {
        assert(!vis0.contains(low));
        assert(vis1 =~= seq![low]);
        if vis1.contains(high) {
            assert(vis1[0] == high);
        }
        assert(vis2 =~= seq![low, high]);
    } else if new_low {
        assert(vis0.contains(high));
        let q = choose|q: int| 0 <= q < vis0.len() && vis0[q] == high;
        assert(vis1[q] == high);
        assert(vis2 == vis1);
        assert forall|i: int, j: int| 0 <= i < vis2.len() && 0 <= j < vis2.len() && i != j implies vis2[i] != vis2[j] by {
            if i == vis0.len() || j == vis0.len() {
            }
        }
    } else if new_high {
        assert(vis1 == vis0);
        assert forall|i: int, j: int| 0 <= i < vis2.len() && 0 <= j < vis2.len() && i != j implies vis2[i] != vis2[j] by {
            if i == vis0.len() || j == vis0.len() {
            }
        }
    }
}

/// Builds a random spanning tree over the rooms, with door candidates as
/// edges: from a random first candidate, it pops random candidates off a
/// frontier and admits each one that reaches a room not yet reached. Says,
/// for each candidate, whether the tree holds it.
#[verifier::rlimit(100)]
pub fn spanning_doors(ds: &Vec<DoorCandidate>, rng: &mut Isaac64Rng) -> (r: Vec<bool>)
    requires
        forall|k: int| 0 <= k < ds@.len() ==> (#[trigger] ds@[k]).low != ds@[k].high,
    ensures
        ds@.len() > 0 ==> tree_sized(ds@, r@),
        r@.len() == ds@.len(),
        ds@.len() > 0 ==> exists|k: int| 0 <= k < r@.len() && r@[k],
        spans(ds@, r@),
        ds@.len() == 0 ==> *final(rng) == *old(rng),
{
    let n = ds.len();
    let mut tree: Vec<bool> = Vec::new();
    let mut i: usize = 0;
    while i < n
        invariant
            n == ds@.len(),
            i <= n,
            tree@.len() == i,
            forall|q: int| 0 <= q < i ==> !#[trigger] tree@[q],
        decreases n - i,
    {
        tree.push(false);
        i = i + 1;
    }
    if n == 0 {
        return tree;
    }
    proof {
        lemma_count_true_none(tree@);
    }
    let mut visited: Vec<usize> = Vec::new();
    let mut to_visit: Vec<usize> = Vec::new();
    to_visit.push(random_below(rng, 0, n));
    let mut admitted: usize = 0;
    while to_visit.len() > 0
        invariant
            n == ds@.len(),
            n > 0,
            tree@.len() == n,
            admitted == count_true(tree@),
            forall|q: int| 0 <= q < to_visit@.len() ==> #[trigger] to_visit@[q] < n,
            forall|k: int|
                0 <= k < n && #[trigger] tree@[k] ==> visited@.contains(ds@[k].low)
                    && visited@.contains(ds@[k].high),
            admitted > 0 || to_visit@.len() > 0,
            admitted == 0 ==> visited@.len() == 0,
            admitted == 0 ==> to_visit@.len() == 1,
            forall|k: int| 0 <= k < ds@.len() ==> (#[trigger] ds@[k]).low != ds@[k].high,
            visited@.no_duplicates(),
            admitted > 0 ==> visited@.len() == admitted + 1,
            admitted > 0 ==> forall|q: int|
                0 <= q < to_visit@.len() ==> visited@.contains(ds@[#[trigger] to_visit@[q] as int].low)
                    || visited@.contains(ds@[to_visit@[q] as int].high),
            forall|x: usize| visited@.contains(x) ==> reached(ds@, tree@, x),
            forall|x: usize, j: int|
                visited@.contains(x) && 0 <= j < n && #[trigger] touches(ds@[j], x) ==> (
                visited@.contains(ds@[j].low) && visited@.contains(ds@[j].high))
                    || to_visit@.contains(j as usize),
        decreases n - admitted, to_visit@.len(),
    {
        proof {
            lemma_count_true_le(tree@);
        }
        let pick = random_below(rng, 0, to_visit.len());
        let ghost tv_full = to_visit@;
        let id = to_visit.swap_remove(pick);
        proof {
            assert forall|x: usize| tv_full.contains(x) && x != id implies to_visit@.contains(x) by {
                let q = choose|q: int| 0 <= q < tv_full.len() && tv_full[q] == x;
                if q == tv_full.len() - 1 {
                    assert(to_visit@[pick as int] == x);
                } else {
                    assert(q != pick);
                    assert(to_visit@[q] == x);
                }
            }
        }
        let ghost tv_mid = to_visit@;
        let ghost vis0 = visited@;
        let ghost admitted0 = admitted as int;
        proof {
            assert(tv_full[pick as int] == id);
            assert forall|q: int| 0 <= q < tv_mid.len() implies tv_full.contains(#[trigger] tv_mid[q]) by {
                if q == pick {
                    assert(tv_full[tv_full.len() - 1] == tv_mid[q]);
                } else {
                    assert(tv_full[q] == tv_mid[q]);
                }
            }
        }
        let ghost tree0 = tree@;
        let low = ds[id].low;
        let high = ds[id].high;
        let new_low = !holds(&visited, low);
        if new_low {
            visited.push(low);
        }
        let ghost vis1 = visited@;
        let new_high = !holds(&visited, high);
        if new_high {
            visited.push(high);
        }
        proof {
            assert forall|x: usize| vis0.contains(x) implies visited@.contains(x) by {
                let q = choose|q: int| 0 <= q < vis0.len() && vis0[q] == x;
                assert(visited@[q] == x);
            }
            if new_low {
                assert(visited@[vis0.len() as int] == low);
            } else {
                let q = choose|q: int| 0 <= q < vis0.len() && vis0[q] == low;
                assert(visited@[q] == low);
            }
            if new_high {
                assert(visited@[vis1.len() as int] == high);
            } else {
                let q = choose|q: int| 0 <= q < vis1.len() && vis1[q] == high;
                assert(visited@[q] == high);
            }
            assert forall|x: usize| visited@.contains(x) && !vis0.contains(x) implies x == low || x
                == high by {
                let q = choose|q: int| 0 <= q < visited@.len() && visited@[q] == x;
                if q < vis0.len() {
                    assert(vis0[q] == x);
                } else if q < vis1.len() {
                    assert(vis1[q] == x);
                }
            }
        }
        if new_low || new_high {
            proof {
                if tree@[id as int] {
                    assert(false);
                }
                lemma_set_flag(tree@, id as int);
                lemma_count_true_le(tree@.update(id as int, true));
            }
            tree.set(id, true);
            admitted = admitted + 1;
            push_edges(ds, low, &visited, &mut to_visit);
            let ghost tv_low = to_visit@;
            push_edges(ds, high, &visited, &mut to_visit);
            proof {
                assert forall|x: usize| tv_mid.contains(x) implies to_visit@.contains(x) by {
                    assert(tv_low.contains(x));
                }
                assert forall|j: int| 0 <= j < n && #[trigger] touches(ds@[j], low) implies (
                visited@.contains(ds@[j].low) && visited@.contains(ds@[j].high))
                    || to_visit@.contains(j as usize) by {
                    if !(visited@.contains(ds@[j].low) && visited@.contains(ds@[j].high)) {
                        assert(tv_low.contains(j as usize));
                    }
                }
            }
        }
        proof {
            assert forall|x: usize| visited@.contains(x) && !vis0.contains(x) implies (new_low
                || new_high) && touches(ds@[id as int], x) by {}
            lemma_step_reached(ds@, tree0, tree@, vis0, visited@, id as int, new_low || new_high);
            assert forall|x: usize| tv_full.contains(x) && x != id implies to_visit@.contains(x) by {
                assert(tv_mid.contains(x));
            }
            assert forall|x: usize, j: int|
                visited@.contains(x) && !vis0.contains(x) && 0 <= j < n && #[trigger] touches(
                    ds@[j],
                    x,
                ) implies (visited@.contains(ds@[j].low) && visited@.contains(ds@[j].high))
                || to_visit@.contains(j as usize) by {
                if x == low {
                    assert(touches(ds@[j], low));
                } else {
                    assert(touches(ds@[j], high));
                }
            }
            lemma_step_closed(ds@, vis0, visited@, tv_full, to_visit@, id as int);
            lemma_step_sized(vis0, vis1, visited@, low, high, new_low, new_high, admitted0);
            assert(admitted > 0 ==> forall|q: int|
                0 <= q < to_visit@.len() ==> visited@.contains(ds@[#[trigger] to_visit@[q] as int].low)
                    || visited@.contains(ds@[to_visit@[q] as int].high)) by {
                assert forall|q: int| 0 <= q < to_visit@.len() implies visited@.contains(ds@[#[trigger] to_visit@[q] as int].low)
                    || visited@.contains(ds@[to_visit@[q] as int].high) by {
                    if q < tv_mid.len() {
                        if new_low || new_high {
                            assert(to_visit@[q] == tv_mid[q]);
                        }
                        assert(tv_full.contains(tv_mid[q]));
                        let p = choose|p: int| 0 <= p < tv_full.len() && tv_full[p] == tv_mid[q];
                        assert(admitted0 > 0);
                    }
                }
            }
            assert forall|k: int|
                0 <= k < n && #[trigger] tree@[k] implies visited@.contains(ds@[k].low)
                && visited@.contains(ds@[k].high) by {
                if k != id {
                    assert(tree0[k]);
                }
            }
        }
    }
    proof {
        lemma_count_true_some(tree@);
        assert forall|x: usize| visited@.contains(x) <==> reached(ds@, tree@, x) by {
            if reached(ds@, tree@, x) {
                let k = choose|k: int| 0 <= k < tree@.len() && tree@[k] && touches(ds@[k], x);
            }
        }
        assert(visited@.len() == count_true(tree@) + 1);
        assert(visited@.no_duplicates() && (forall|x: usize| visited@.contains(x) <==> reached(ds@, tree@, x))
            && visited@.len() == count_true(tree@) + 1);
        assert(tree_sized(ds@, tree@));
        assert forall|j: int|
            0 <= j < ds@.len() && (reached(ds@, tree@, (#[trigger] ds@[j]).low) || reached(
                ds@,
                tree@,
                ds@[j].high,
            )) implies reached(ds@, tree@, ds@[j].low) && reached(ds@, tree@, ds@[j].high) by {
            if reached(ds@, tree@, ds@[j].low) {
                let k = choose|k: int| 0 <= k < tree@.len() && tree@[k] && touches(ds@[k], ds@[j].low);
                assert(visited@.contains(ds@[j].low));
                assert(touches(ds@[j], ds@[j].low));
            } else {
                let k = choose|k: int| 0 <= k < tree@.len() && tree@[k] && touches(ds@[k], ds@[j].high);
                assert(visited@.contains(ds@[j].high));
                assert(touches(ds@[j], ds@[j].high));
            }
        }
    }
    tree
}

/// `chosen` holds a spanning tree of the door candidates (one door at least
/// when there is a candidate).
pub open spec fn doors_chosen(ds: Seq<DoorCandidate>, chosen: Seq<bool>) -> bool {
    &&& chosen.len() == ds.len()
    &&& ds.len() > 0 ==> exists|k: int| 0 <= k < chosen.len() && chosen[k]
    &&& exists|tree: Seq<bool>|
        #![trigger spans(ds, tree)]
        tree.len() == ds.len() && spans(ds, tree) && (ds.len() > 0 ==> exists|k: int|
            0 <= k < tree.len() && tree[k]) && (ds.len() > 0 ==> tree_sized(ds, tree)) && (forall|k: int|
            0 <= k < tree.len() && tree[k] ==> chosen[k]) && count_true(chosen) == count_true(tree)
            + (ds.len() - count_true(tree)) / 4
}

/// The doors of the spanning tree, plus a random quarter (rounded down) of
/// the other door candidates, which add loops. Says, for each candidate,
/// whether it is chosen.
pub fn choose_doors(ds: &Vec<DoorCandidate>, rng: &mut Isaac64Rng) -> (r: Vec<bool>)
    requires
        forall|k: int| 0 <= k < ds@.len() ==> (#[trigger] ds@[k]).low != ds@[k].high,
    ensures
        doors_chosen(ds@, r@),
{
    let tree = spanning_doors(ds, rng);
    let mut others: Vec<usize> = Vec::new();
    let mut k: usize = 0;
    while k < tree.len()
        invariant
            k <= tree@.len(),
            forall|q: int| 0 <= q < others@.len() ==> #[trigger] others@[q] < k,
            forall|q: int| 0 <= q < others@.len() ==> !tree@[#[trigger] others@[q] as int],
            forall|p: int, q: int| 0 <= p < q < others@.len() ==> others@[p] < others@[q],
            others@.len() + count_true(tree@.take(k as int)) == k,
        decreases tree@.len() - k,
    {
        proof {
            assert(tree@.take(k + 1).drop_last() =~= tree@.take(k as int));
        }
        if !tree[k] {
            others.push(k);
        }
        k = k + 1;
    }
    proof {
        assert(tree@.take(tree@.len() as int) =~= tree@);
        assert(others@.no_duplicates());
    }
    let ghost before = others@;
    shuffle(&mut others, rng);
    proof {
        before.to_multiset_ensures();
        others@.to_multiset_ensures();
        before.lemma_multiset_has_no_duplicates();
        others@.lemma_multiset_has_no_duplicates_conv();
        assert forall|q: int| 0 <= q < others@.len() implies !tree@[#[trigger] others@[q] as int] by {
            let x = others@[q];
            assert(others@.contains(x));
            assert(others@.to_multiset().count(x) > 0);
            assert(before.to_multiset().count(x) > 0);
            assert(before.contains(x));
        }
        assert forall|q: int| 0 <= q < others@.len() implies #[trigger] others@[q] < tree@.len() by {
            let x = others@[q];
            others@.to_multiset_ensures();
            before.to_multiset_ensures();
            assert(others@.contains(x));
            assert(others@.to_multiset().count(x) > 0);
            assert(before.to_multiset().count(x) > 0);
            assert(before.contains(x));
        }
    }
    let extra = others.len() / 4;
    let mut chosen = tree;
    let ghost tree0 = chosen@;
    let mut j: usize = 0;
    while j < extra
        invariant
            j <= extra,
            extra <= others@.len(),
            chosen@.len() == tree0.len(),
            chosen@.len() == ds@.len(),
            forall|q: int| 0 <= q < others@.len() ==> #[trigger] others@[q] < chosen@.len(),
            forall|q: int| 0 <= q < tree0.len() && tree0[q] ==> #[trigger] chosen@[q],
            others@.no_duplicates(),
            forall|q: int| 0 <= q < others@.len() ==> !tree0[#[trigger] others@[q] as int],
            forall|q: int| j <= q < others@.len() ==> !chosen@[#[trigger] others@[q] as int],
            count_true(chosen@) == count_true(tree0) + j,
        decreases extra - j,
    {
        let o = others[j];
        proof {
            lemma_set_flag(chosen@, o as int);
        }
        chosen.set(o, true);
        j = j + 1;
        proof {
            assert forall|q: int| j <= q < others@.len() implies !chosen@[#[trigger] others@[q] as int] by {
                assert(others@[q] != others@[j - 1]);
            }
        }
    }
    proof {
        if ds@.len() > 0 {
            let k = choose|k: int| 0 <= k < tree0.len() && tree0[k];
            assert(chosen@[k]);
        }
        assert(tree0.len() == ds@.len() && spans(ds@, tree0) && (ds@.len() > 0 ==> exists|k: int|
            0 <= k < tree0.len() && tree0[k]) && (ds@.len() > 0 ==> tree_sized(ds@, tree0)) && (forall|k: int|
            0 <= k < tree0.len() && tree0[k] ==> chosen@[k]) && count_true(chosen@) == count_true(tree0)
            + (ds@.len() - count_true(tree0)) / 4);
    }
    chosen
}

/// The lowest index of a door candidate's coordinates that a door may take.
pub open spec fn door_lo(len: int) -> int {
    len / 4
}

/// One past the highest index of a door candidate's coordinates that a door may take.
pub open spec fn door_hi(len: int) -> int {
    if len - 1 - len / 4 > len / 4 + 1 {
        len - 1 - len / 4
    } else {
        len / 4 + 1
    }
}

/// Picks the cell of a door candidate that becomes a door: a random one away
/// from the ends of the run.
pub fn door_cell(d: &DoorCandidate, rng: &mut Isaac64Rng) -> (r: usize)
    requires
        d.coords@.len() > 0,
    ensures
        exists|k: int|
            door_lo(d.coords@.len() as int) <= k < door_hi(d.coords@.len() as int) && r
                == d.coords@[k],
{
    let len = d.coords.len();
    let lo = len / 4;
    let hi = if len - 1 - lo > lo + 1 {
        len - 1 - lo
    } else {
        lo + 1
    };
    let k = random_below(rng, lo, hi);
    d.coords[k]
}

} // verus!
