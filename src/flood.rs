use crate::grid::{
    adjacent, closed, connected, lemma_connected_refl, lemma_connected_step, lemma_connected_trans,
};
use vstd::prelude::*;

verus! {

/// Number of cells that carry no label yet.
pub open spec fn count_unlabelled(s: Seq<Option<usize>>) -> nat
    decreases s.len(),
{
    if s.len() == 0 {
        0
    } else {
        count_unlabelled(s.drop_last()) + if s.last().is_none() {
            1nat
        } else {
            0nat
        }
    }
}

proof fn lemma_label_one(s: Seq<Option<usize>>, i: int, l: usize)
    requires
        0 <= i < s.len(),
        s[i].is_none(),
    ensures
        count_unlabelled(s.update(i, Some(l))) + 1 == count_unlabelled(s),
    decreases s.len(),
{
    let t = s.update(i, Some(l));
    if i == s.len() - 1 {
        assert(t.drop_last() =~= s.drop_last());
    } else {
        assert(t.drop_last() =~= s.drop_last().update(i, Some(l)));
        lemma_label_one(s.drop_last(), i, l);
    }
}

/// Number of cells labelled `v`.
pub open spec fn count_of(s: Seq<Option<usize>>, v: Option<usize>) -> nat
    decreases s.len(),
{
    if s.len() == 0 {
        0
    } else {
        count_of(s.drop_last(), v) + if s.last() == v {
            1nat
        } else {
            0nat
        }
    }
}

proof fn lemma_count_of_le(s: Seq<Option<usize>>, v: Option<usize>)
    ensures
        count_of(s, v) <= s.len(),
    decreases s.len(),
{
    if s.len() > 0 {
        lemma_count_of_le(s.drop_last(), v);
    }
}

/// The number of cells under each label below `count`.
pub fn region_sizes(labels: &Vec<Option<usize>>, count: usize) -> (r: Vec<usize>)
    requires
        forall|i: int|
            0 <= i < labels@.len() && (#[trigger] labels@[i]).is_some() ==> labels@[i].unwrap()
                < count,
    ensures
        r@.len() == count,
        forall|l: int| 0 <= l < count ==> #[trigger] r@[l] == count_of(labels@, Some(l as usize)),
{
    let mut sizes: Vec<usize> = Vec::new();
    let mut l: usize = 0;
    while l < count
        invariant
            l <= count,
            sizes@.len() == l,
            forall|q: int| 0 <= q < l ==> #[trigger] sizes@[q] == 0,
        decreases count - l,
    {
        sizes.push(0);
        l = l + 1;
    }
    let mut i: usize = 0;
    while i < labels.len()
        invariant
            i <= labels@.len(),
            sizes@.len() == count,
            forall|i: int|
                0 <= i < labels@.len() && (#[trigger] labels@[i]).is_some() ==> labels@[i].unwrap()
                    < count,
            forall|q: int|
                0 <= q < count ==> #[trigger] sizes@[q] == count_of(
                    labels@.take(i as int),
                    Some(q as usize),
                ),
        decreases labels@.len() - i,
    {
        proof {
            assert(labels@.take(i + 1).drop_last() =~= labels@.take(i as int));
        }
        match labels[i] {
            Some(q) => {
                proof {
                    lemma_count_of_le(labels@.take(i as int), Some(q));
                }
                let c = sizes[q];
                sizes.set(q, c + 1);
            },
            None => {},
        }
        i = i + 1;
    }
    proof {
        assert(labels@.take(labels@.len() as int) =~= labels@);
    }
    sizes
}

/// Every labelled cell is passable, carries a label below `count`, and reaches
/// the seed of its label and is reached from it.
pub open spec fn labels_sound(
    pass: Seq<bool>,
    w: int,
    labels: Seq<Option<usize>>,
    seeds: Seq<int>,
    count: int,
) -> bool {
    &&& labels.len() == pass.len()
    &&& seeds.len() == count
    &&& forall|i: int|
        0 <= i < labels.len() && (#[trigger] labels[i]).is_some() ==> {
            &&& pass[i]
            &&& labels[i].unwrap() < count
            &&& connected(pass, w, seeds[labels[i].unwrap() as int], i)
            &&& connected(pass, w, i, seeds[labels[i].unwrap() as int])
        }
}

/// Every label below `count` is used, and labels are numbered in the order
/// in which a row-by-row scan first meets them: before any cell labelled
/// `l2` some cell labelled `l1` comes, for every `l1 < l2`.
pub open spec fn scan_ordered(labels: Seq<Option<usize>>, count: int) -> bool {
    &&& forall|l: int| 0 <= l < count ==> #[trigger] label_used(labels, l)
    &&& forall|l1: int, j: int|
        0 <= l1 && 0 <= j < labels.len() && labels[j] is Some && l1 < labels[j].unwrap()
            ==> #[trigger] label_before(labels, l1, j)
}

/// Some cell carries label `l`.
pub open spec fn label_used(labels: Seq<Option<usize>>, l: int) -> bool {
    exists|i: int| 0 <= i < labels.len() && labels[i] == Some(l as usize)
}

/// Some cell before cell `j` carries label `l`.
pub open spec fn label_before(labels: Seq<Option<usize>>, l: int, j: int) -> bool {
    exists|i: int| 0 <= i < j && labels[i] == Some(l as usize)
}

/// Each seed below `n` carries its label, and no cell carries a label
/// before that label's seed.
#[verifier::opaque]
pub open spec fn seeds_first(labels: Seq<Option<usize>>, seeds: Seq<int>, n: int) -> bool {
    &&& seeds.len() >= n
    &&& forall|q: int| 0 <= q < n ==> 0 <= #[trigger] seeds[q] < labels.len() && labels[seeds[q]] == Some(q as usize)
    &&& forall|i: int| 0 <= i < labels.len() && (#[trigger] labels[i]) is Some ==> seeds[labels[i].unwrap() as int] <= i
}

/// The labels of the passable cells of a `w`-wide grid are exactly its
/// connected components, numbered from 0 to `count - 1`.
pub open spec fn is_labelling(pass: Seq<bool>, w: int, labels: Seq<Option<usize>>, count: int) -> bool {
    &&& labels.len() == pass.len()
    &&& forall|i: int| 0 <= i < labels.len() ==> (#[trigger] labels[i]).is_some() == pass[i]
    &&& forall|i: int|
        0 <= i < labels.len() && (#[trigger] labels[i]).is_some() ==> labels[i].unwrap() < count
    &&& forall|i: int, j: int|
        0 <= i < labels.len() && 0 <= j < labels.len() && pass[i] && pass[j] ==> (
        #[trigger] labels[i] == #[trigger] labels[j] <==> connected(pass, w, i, j))
}

/// Every cell labelled `l`, other than `a` and those still waiting on the
/// stack, has all its passable neighbours labelled.
pub open spec fn frontier_done(
    pass: Seq<bool>,
    w: int,
    labels: Seq<Option<usize>>,
    stack: Seq<usize>,
    l: usize,
    a: int,
) -> bool {
    forall|x: int, b: int|
        #![trigger labels[x], adjacent(w, pass.len() as int, x, b)]
        0 <= x < pass.len() && labels[x] == Some(l) && x != a && !stack.contains(x as usize)
            && adjacent(w, pass.len() as int, x, b) && pass[b] ==> labels[b].is_some()
}

fn mark(
    pass: &Vec<bool>,
    w: usize,
    labels: &mut Vec<Option<usize>>,
    stack: &mut Vec<usize>,
    a: usize,
    b: usize,
    l: usize,
    Ghost(seeds): Ghost<Seq<int>>,
)
    requires
        w > 0,
        a < pass.len(),
        b < pass.len(),
        adjacent(w as int, pass.len() as int, a as int, b as int),
        old(labels)@[a as int] == Some(l),
        labels_sound(pass@, w as int, old(labels)@, seeds, l + 1),
        frontier_done(pass@, w as int, old(labels)@, old(stack)@, l, a as int),
        seeds_first(old(labels)@, seeds, l + 1),
        0 <= seeds[l as int],
        forall|i: int| 0 <= i < seeds[l as int] && pass@[i] ==> (#[trigger] old(labels)@[i]).is_some(),
    ensures
        seeds_first(final(labels)@, seeds, l + 1),
        labels_sound(pass@, w as int, final(labels)@, seeds, l + 1),
        frontier_done(pass@, w as int, final(labels)@, final(stack)@, l, a as int),
        forall|i: int|
            0 <= i < old(labels)@.len() && (#[trigger] old(labels)@[i]).is_some()
                ==> final(labels)@[i] == old(labels)@[i],
        pass@[b as int] ==> final(labels)@[b as int].is_some(),
        if pass@[b as int] && old(labels)@[b as int].is_none() {
            &&& final(labels)@ == old(labels)@.update(b as int, Some(l))
            &&& final(stack)@ == old(stack)@.push(b)
            &&& count_unlabelled(final(labels)@) + 1 == count_unlabelled(old(labels)@)
        } else {
            &&& final(labels)@ == old(labels)@
            &&& final(stack)@ == old(stack)@
        },
{
    if pass[b] && labels[b].is_none() {
        proof {
            assert(labels@[a as int].is_some());
            lemma_connected_step(pass@, w as int, seeds[l as int], a as int, b as int);
            lemma_label_one(labels@, b as int, l);
        }
        labels.set(b, Some(l));
        stack.push(b);
        proof {
            let ls = labels@;
            assert forall|i: int| 0 <= i < ls.len() && (#[trigger] ls[i]).is_some() implies {
                &&& pass@[i]
                &&& ls[i].unwrap() < l + 1
                &&& connected(pass@, w as int, seeds[ls[i].unwrap() as int], i)
                &&& connected(pass@, w as int, i, seeds[ls[i].unwrap() as int])
            } by {
                if i != b {
                    assert(old(labels)@[i] == ls[i]);
                }
            }
            reveal(seeds_first);
            assert forall|q: int| 0 <= q < l + 1 implies 0 <= #[trigger] seeds[q] < ls.len() && ls[seeds[q]] == Some(q as usize) by {
                assert(old(labels)@[seeds[q]] == Some(q as usize));
            }
            assert forall|i: int| 0 <= i < ls.len() && (#[trigger] ls[i]) is Some implies seeds[ls[i].unwrap() as int] <= i by {
                if i != b {
                    assert(old(labels)@[i] == ls[i]);
                }
            }
            assert forall|x: int, c: int|
                #![trigger ls[x], adjacent(w as int, pass.len() as int, x, c)]
                0 <= x < pass.len() && ls[x] == Some(l) && x != a && !stack@.contains(x as usize)
                    && adjacent(w as int, pass.len() as int, x, c) && pass@[c] implies ls[c].is_some() by {
                assert(stack@.last() == b);
                if x != b {
                    assert(old(labels)@[x] == ls[x]);
                    if old(stack)@.contains(x as usize) {
                        let q = choose|q: int| 0 <= q < old(stack)@.len() && old(stack)@[q] == x as usize;
                        assert(stack@[q] == x as usize);
                    }
                }
            }
        }
    }
}

/// Labels the 4-connected components of the passable cells of a grid `w`
/// cells wide, in the order in which a row-by-row scan first meets them.
/// Returns the labels and the number of components.
#[verifier::rlimit(80)]
pub fn label_regions(pass: &Vec<bool>, w: usize) -> (r: (Vec<Option<usize>>, usize))
    requires
        w > 0,
    ensures
        is_labelling(pass@, w as int, r.0@, r.1 as int),
        scan_ordered(r.0@, r.1 as int),
        r.1 <= pass.len(),
{
    let n = pass.len();
    let mut labels: Vec<Option<usize>> = Vec::new();
    let mut j: usize = 0;
    while j < n
        invariant
            j <= n,
            n == pass.len(),
            labels@.len() == j,
            forall|i: int| 0 <= i < j ==> labels@[i].is_none(),
        decreases n - j,
    {
        labels.push(None);
        j = j + 1;
    }
    let ghost nn = n as int;
    let ghost wi = w as int;
    let ghost mut seeds: Seq<int> = Seq::empty();
    proof {
        reveal(seeds_first);
        assert(seeds_first(labels@, seeds, 0));
    }
    let mut count: usize = 0;
    let mut k: usize = 0;
    while k < n
        invariant
            w > 0,
            k <= n,
            n == pass.len(),
            nn == n,
            wi == w,
            count <= k,
            labels_sound(pass@, wi, labels@, seeds, count as int),
            seeds_first(labels@, seeds, count as int),
            forall|q: int| 0 <= q < count ==> #[trigger] seeds[q] < k,
            forall|q1: int, q2: int| 0 <= q1 < q2 < count ==> #[trigger] seeds[q1] < #[trigger] seeds[q2],
            forall|i: int| 0 <= i < k && pass@[i] ==> (#[trigger] labels@[i]).is_some(),
            forall|a: int, b: int|
                #![trigger labels@[a], adjacent(wi, nn, a, b)]
                0 <= a < nn && labels@[a].is_some() && adjacent(wi, nn, a, b) && pass@[b]
                    ==> labels@[b] == labels@[a],
        decreases n - k,
    {
        if pass[k] && labels[k].is_none() {
            let l = count;
            let ghost lab_before = labels@;
            let ghost seeds_before = seeds;
            proof {
                seeds = seeds.push(k as int);
            }
            labels.set(k, Some(l));
            proof {
                let ls = labels@;
                assert forall|i: int| 0 <= i < ls.len() && (#[trigger] ls[i]).is_some() implies {
                    &&& pass@[i]
                    &&& ls[i].unwrap() < l + 1
                    &&& connected(pass@, wi, seeds[ls[i].unwrap() as int], i)
                    &&& connected(pass@, wi, i, seeds[ls[i].unwrap() as int])
                } by {
                    if i != k {
                        assert(lab_before[i] == ls[i]);
                        assert(seeds[ls[i].unwrap() as int] == seeds_before[ls[i].unwrap() as int]);
                    } else {
                        lemma_connected_refl(pass@, wi, k as int);
                    }
                }
                reveal(seeds_first);
                assert forall|i: int| 0 <= i < ls.len() && (#[trigger] ls[i]) is Some implies seeds[ls[i].unwrap() as int] <= i by {
                    if i != k {
                        assert(lab_before[i] == ls[i]);
                        assert(seeds[ls[i].unwrap() as int] == seeds_before[ls[i].unwrap() as int]);
                    }
                }
                assert forall|q: int| 0 <= q < l + 1 implies 0 <= #[trigger] seeds[q] < ls.len() && ls[seeds[q]] == Some(q as usize) by {
                    if q < l {
                        assert(seeds[q] == seeds_before[q]);
                        assert(lab_before[seeds_before[q]] == Some(q as usize));
                    }
                }
                assert forall|q1: int, q2: int| 0 <= q1 < q2 < l + 1 implies #[trigger] seeds[q1] < #[trigger] seeds[q2] by {
                    assert(seeds[q1] == seeds_before[q1]);
                    if q2 < l {
                        assert(seeds[q2] == seeds_before[q2]);
                    }
                }
            }
            let mut stack: Vec<usize> = Vec::new();
            stack.push(k);
            proof {
                assert(stack@[0] == k);
                assert forall|x: int| 0 <= x < nn && #[trigger] labels@[x] == Some(l) implies x == k by {
                    if x != k {
                        assert(lab_before[x] == labels@[x]);
                    }
                }
            }
            while stack.len() > 0
                invariant
                    w > 0,
                    k < n,
                    n == pass.len(),
                    nn == n,
                    wi == w,
                    l == count,
                    count <= k,
                    labels_sound(pass@, wi, labels@, seeds, l + 1),
                    seeds_first(labels@, seeds, l + 1),
                    seeds[l as int] == k,
                    forall|q: int| 0 <= q < l ==> #[trigger] seeds[q] < k,
                    forall|q1: int, q2: int| 0 <= q1 < q2 < l + 1 ==> #[trigger] seeds[q1] < #[trigger] seeds[q2],
                    labels@[k as int] == Some(l),
                    forall|i: int| 0 <= i < k && pass@[i] ==> (#[trigger] labels@[i]).is_some(),
                    forall|a: int, b: int|
                        #![trigger labels@[a], adjacent(wi, nn, a, b)]
                        0 <= a < nn && labels@[a].is_some() && labels@[a].unwrap() < l
                            && adjacent(wi, nn, a, b) && pass@[b] ==> labels@[b] == labels@[a],
                    frontier_done(pass@, wi, labels@, stack@, l, -1),
                    forall|q: int|
                        0 <= q < stack@.len() ==> #[trigger] stack@[q] < n && labels@[stack@[q] as int]
                            == Some(l),
                decreases 5 * count_unlabelled(labels@) + stack@.len(),
            {
                let ghost st_full = stack@;
                let a = stack.pop().unwrap();
                proof {
                    assert(st_full =~= stack@.push(a));
                    assert forall|x: int, b: int|
                        #![trigger labels@[x], adjacent(wi, nn, x, b)]
                        0 <= x < nn && labels@[x] == Some(l) && x != a && !stack@.contains(x as usize)
                            && adjacent(wi, nn, x, b) && pass@[b] implies labels@[b].is_some() by {
                        if st_full.contains(x as usize) {
                            let q = choose|q: int| 0 <= q < st_full.len() && st_full[q] == x as usize;
                            assert(stack@[q] == x as usize);
                        }
                    }
                }
                let ghost lab0 = labels@;
                if a + 1 < n && a % w != w - 1 {
                    mark(pass, w, &mut labels, &mut stack, a, a + 1, l, Ghost(seeds));
                }
                if a >= 1 && (a - 1) % w != w - 1 {
                    mark(pass, w, &mut labels, &mut stack, a, a - 1, l, Ghost(seeds));
                }
                if w < n && a < n - w {
                    mark(pass, w, &mut labels, &mut stack, a, a + w, l, Ghost(seeds));
                }
                if a >= w {
                    mark(pass, w, &mut labels, &mut stack, a, a - w, l, Ghost(seeds));
                }
                proof {
                    assert forall|x: int, b: int|
                        #![trigger labels@[x], adjacent(wi, nn, x, b)]
                        0 <= x < nn && labels@[x] == Some(l) && !stack@.contains(x as usize)
                            && adjacent(wi, nn, x, b) && pass@[b] implies labels@[b].is_some() by {
                        if x == a {
                            assert(lab0[b].is_some() ==> labels@[b].is_some());
                        }
                    }
                }
            }
            proof {
                assert forall|x: int, b: int|
                    #![trigger labels@[x], adjacent(wi, nn, x, b)]
                    0 <= x < nn && labels@[x].is_some() && adjacent(wi, nn, x, b) && pass@[b]
                        implies labels@[b] == labels@[x] by {
                    if labels@[x] == Some(l) {
                        assert(labels@[b].is_some());
                        assert(adjacent(wi, nn, b, x));
                        if labels@[b].unwrap() < l {
                            assert(labels@[x] == labels@[b]);
                        }
                    }
                }
            }
            count = count + 1;
        }
        k = k + 1;
    }
    proof {
        reveal(seeds_first);
        assert forall|l: int| 0 <= l < count implies #[trigger] label_used(labels@, l) by {
            assert(labels@[seeds[l]] == Some(l as usize));
        }
        assert forall|l1: int, j: int|
            0 <= l1 && 0 <= j < labels@.len() && labels@[j] is Some && l1 < labels@[j].unwrap()
                implies #[trigger] label_before(labels@, l1, j) by {
            let l2 = labels@[j].unwrap() as int;
            assert(seeds[l1] < seeds[l2]);
            assert(labels@[seeds[l1]] == Some(l1 as usize));
        }
    }
    proof {
        assert forall|i: int, j: int|
            0 <= i < nn && 0 <= j < nn && pass@[i] && pass@[j] implies (#[trigger] labels@[i]
            == #[trigger] labels@[j] <==> connected(pass@, wi, i, j)) by {
            assert(labels@[i].is_some() && labels@[j].is_some());
            if labels@[i] == labels@[j] {
                lemma_connected_trans(pass@, wi, i, seeds[labels@[i].unwrap() as int], j);
            }
            if connected(pass@, wi, i, j) {
                let s = Set::new(|x: int| 0 <= x < nn && labels@[x] == labels@[i]);
                assert forall|a: int, b: int|
                    #![trigger s.contains(a), adjacent(wi, nn, a, b)]
                    s.contains(a) && adjacent(wi, nn, a, b) && pass@[b] implies s.contains(b) by {
                    assert(labels@[a].is_some());
                }
                assert(closed(pass@, wi, s));
                assert(s.contains(i));
            }
        }
    }
    (labels, count)
}

} // verus!
