use rand::SeedableRng;
use rand_isaac::Isaac64Rng;
use sewer_gen::assemble::{ensure_single_connected_area, lights_from_draws, spawn_candidates};
use sewer_gen::candidates::{bridge_candidates_axis, door_candidates_axis, BridgeCandidate};
use sewer_gen::carve::{
    add_outer_wall, add_pools, remove_boring_space, remove_boring_space_step, remove_sharp_edges,
    remove_small_pools, shrink_pool, shrink_pool_by,
};
use sewer_gen::flood::{label_regions, region_sizes};
use sewer_gen::level::SewerCell;
use sewer_gen::regions::{classify_floor, Classified};
use sewer_gen::select::{choose_doors, door_cell, prune_bridges};
use sewer_gen::sewer::{carve_terrain, example_cells, finish_level};

const W: SewerCell = SewerCell::Wall;
const F: SewerCell = SewerCell::Floor;
const P: SewerCell = SewerCell::Pool;

#[test]
fn labels_follow_scan_order() {
    let pass = vec![
        true, true, false, true, //
        false, false, false, true, //
        true, false, true, true,
    ];
    let (labels, count) = label_regions(&pass, 4);
    assert_eq!(count, 3);
    let n = None;
    assert_eq!(
        labels,
        vec![
            Some(0),
            Some(0),
            n,
            Some(1),
            n,
            n,
            n,
            Some(1),
            Some(2),
            n,
            Some(1),
            Some(1)
        ]
    );
    assert_eq!(region_sizes(&labels, count), vec![2, 4, 1]);
}

#[test]
fn labels_of_an_empty_mask() {
    let (labels, count) = label_regions(&vec![false; 9], 3);
    assert_eq!(count, 0);
    assert_eq!(labels, vec![None; 9]);
}

#[test]
fn shrinking_erodes_around_a_hole() {
    let mut p = vec![Some(0usize); 25];
    p[12] = None;
    let r = shrink_pool(&p, 5, 5, 0);
    for i in 0..25 {
        let (x, y) = (i % 5, i / 5);
        let near = (1..=3).contains(&x) && (1..=3).contains(&y);
        assert_eq!(r[i].is_none(), near, "cell {}", i);
    }
    let solid = vec![Some(0usize); 25];
    assert_eq!(shrink_pool(&solid, 5, 5, 0), solid);
    let other = shrink_pool(&p, 5, 5, 1);
    assert_eq!(other, p);
}

#[test]
fn shrinking_twice_empties_a_small_pool() {
    let mut p = vec![None; 49];
    for y in 1..6 {
        for x in 1..6 {
            p[y * 7 + x] = Some(0usize);
        }
    }
    let once = shrink_pool_by(p.clone(), 7, 7, 0, 1);
    assert_eq!(once.iter().filter(|c| c.is_some()).count(), 9);
    let twice = shrink_pool_by(p, 7, 7, 0, 2);
    assert_eq!(twice.iter().filter(|c| c.is_some()).count(), 1);
}

#[test]
fn sharp_edges_go() {
    let mut p = vec![None; 9];
    p[4] = Some(0usize);
    assert_eq!(remove_sharp_edges(&p, 3, 3), vec![None; 9]);
    let block = vec![
        Some(0usize),
        Some(0),
        None,
        Some(0),
        Some(0),
        None,
        None,
        None,
        None,
    ];
    assert_eq!(remove_sharp_edges(&block, 3, 3), block);
}

#[test]
fn small_pools_go() {
    let p = vec![
        Some(0usize),
        Some(0),
        None,
        Some(1),
        None,
        None,
        None,
        Some(1),
        None,
        None,
        Some(1),
        Some(1),
    ];
    let r = remove_small_pools(&p, 4, 3, 3);
    let mut want = p.clone();
    want[0] = None;
    want[1] = None;
    assert_eq!(r, want);
    assert_eq!(remove_small_pools(&p, 4, 3, 2), p);
}

#[test]
fn pools_become_terrain() {
    let open = vec![false, true, true];
    let pools = vec![None, Some(0usize), None];
    assert_eq!(add_pools(&open, &pools), vec![W, P, F]);
}

#[test]
fn outer_wall_keeps_pools() {
    let mut m = vec![F; 12];
    m[3] = P;
    let r = add_outer_wall(&m, 4, 3);
    let mut want = vec![W; 12];
    want[3] = P;
    want[5] = F;
    want[6] = F;
    assert_eq!(r, want);
}

#[test]
fn corridors_fill_in() {
    let m = vec![W, W, W, W, W, W, F, F, F, W, W, W, W, W, W];
    let (step, changed) = remove_boring_space_step(&m, 5, 3);
    assert!(changed);
    assert_eq!(step, vec![W; 15]);
    let (same, unchanged) = remove_boring_space_step(&step, 5, 3);
    assert!(!unchanged);
    assert_eq!(same, step);
    assert_eq!(remove_boring_space(m, 5, 3), vec![W; 15]);
}

#[test]
fn wide_rooms_stay() {
    let mut m = vec![W; 25];
    for y in 1..4 {
        for x in 1..4 {
            m[y * 5 + x] = F;
        }
    }
    assert_eq!(remove_boring_space(m.clone(), 5, 5), m);
}

fn strait() -> Vec<SewerCell> {
    vec![
        W, W, W, W, W, W, W, //
        W, F, F, F, F, F, W, //
        P, P, P, P, P, P, P, //
        W, F, F, F, F, F, W, //
        W, W, W, W, W, W, W,
    ]
}

#[test]
fn classification_splits_bodies_not_rooms() {
    let c = classify_floor(&strait(), 7, 5);
    match (c[8], c[22]) {
        (
            Classified::Floor { room: r1, body: b1 },
            Classified::Floor { room: r2, body: b2 },
        ) => {
            assert_eq!(r1, r2);
            assert_ne!(b1, b2);
        }
        _ => panic!("expected floor"),
    }
    assert_eq!(c[0], Classified::Wall);
    assert_eq!(c[15], Classified::Pool);
    assert_eq!(c[14], Classified::Pool);
}

#[test]
fn bridges_cross_the_strait() {
    let m = strait();
    let c = classify_floor(&m, 7, 5);
    let across = bridge_candidates_axis(&m, &c, 7, 5, false);
    assert_eq!(across.len(), 5);
    for (k, b) in across.iter().enumerate() {
        assert_eq!(b.coords, vec![15 + k]);
        assert_ne!(b.start, b.end);
    }
    assert_eq!(bridge_candidates_axis(&m, &c, 7, 5, true).len(), 0);
    assert_eq!(prune_bridges(&across), vec![true, true, true, false, false]);
}

#[test]
fn pruning_prefers_short_bridges() {
    let cands = vec![
        BridgeCandidate {
            coords: vec![1, 2, 3],
            start: 0,
            end: 1,
        },
        BridgeCandidate {
            coords: vec![4],
            start: 1,
            end: 0,
        },
        BridgeCandidate {
            coords: vec![5, 6],
            start: 2,
            end: 0,
        },
    ];
    assert_eq!(prune_bridges(&cands), vec![false, true, true]);
}

fn two_rooms() -> Vec<SewerCell> {
    vec![
        W, W, W, W, W, W, W, //
        W, F, F, F, F, F, W, //
        W, W, W, W, W, W, W, //
        W, F, F, F, F, F, W, //
        W, W, W, W, W, W, W,
    ]
}

#[test]
fn doors_join_the_rooms() {
    let m = two_rooms();
    let c = classify_floor(&m, 7, 5);
    let doors = door_candidates_axis(&m, &c, 7, 5, true);
    assert_eq!(doors.len(), 1);
    assert_eq!(doors[0].coords, vec![15, 16, 17, 18, 19]);
    assert_ne!(doors[0].high, doors[0].low);
    assert_eq!(door_candidates_axis(&m, &c, 7, 5, false).len(), 0);
    let mut rng = Isaac64Rng::seed_from_u64(3);
    for _ in 0..20 {
        let d = door_cell(&doors[0], &mut rng);
        assert!(d == 16 || d == 17, "door at {}", d);
    }
    let chosen = choose_doors(&doors, &mut rng);
    assert_eq!(chosen, vec![true]);
    assert_eq!(choose_doors(&Vec::new(), &mut rng), Vec::<bool>::new());
}

#[test]
fn only_the_largest_area_stays() {
    let m = vec![
        W, W, W, W, W, W, //
        W, F, W, F, F, W, //
        W, W, W, W, W, W,
    ];
    let r = ensure_single_connected_area(&m, 6, 3);
    let mut want = m.clone();
    want[7] = W;
    assert_eq!(r, want);
    let tie = vec![
        W, W, W, W, W, W, //
        W, F, W, F, W, W, //
        W, W, W, W, W, W,
    ];
    let r = ensure_single_connected_area(&tie, 6, 3);
    let mut want = tie.clone();
    want[7] = W;
    assert_eq!(r, want);
}

#[test]
fn spawn_needs_floor_all_round() {
    let mut m = vec![W; 25];
    for y in 1..4 {
        for x in 1..4 {
            m[y * 5 + x] = F;
        }
    }
    assert_eq!(spawn_candidates(&m, 5, 5), vec![12]);
    m[13] = P;
    assert_eq!(spawn_candidates(&m, 5, 5), Vec::<usize>::new());
}

#[test]
fn synthesized_terrain_has_the_requested_size() {
    assert_eq!(example_cells().len(), 32 * 32);
    let mut rng = Isaac64Rng::seed_from_u64(8);
    let t = carve_terrain(10, 8, &mut rng);
    assert_eq!(t.len(), 80);
    for (i, c) in t.iter().enumerate() {
        let (x, y) = (i % 10, i / 10);
        if x == 0 || y == 0 || x == 9 || y == 7 {
            assert_ne!(*c, F);
        }
        assert!(*c == W || *c == F || *c == P);
    }
}

#[test]
fn erosion_counts_other_pools_as_outside() {
    let mut p = vec![Some(0usize); 9];
    p[0] = Some(1);
    let r = shrink_pool(&p, 3, 3, 0);
    assert_eq!(r[4], None);
    assert_eq!(r[0], Some(1));
    assert_eq!(r[8], Some(0));
}

#[test]
fn draws_light_pool_cells() {
    let m = vec![
        W, W, W, W, W, //
        W, P, P, P, W, //
        W, P, P, P, W, //
        W, P, P, P, W, //
        W, W, W, W, W,
    ];
    let mut draws = vec![1usize; 25];
    assert_eq!(lights_from_draws(&m, 5, 5, &draws), Vec::<usize>::new());
    draws[12] = 0;
    draws[0] = 0;
    assert_eq!(lights_from_draws(&m, 5, 5, &draws), vec![12]);
    let mut open = m.clone();
    open[7] = F;
    assert_eq!(lights_from_draws(&open, 5, 5, &draws), vec![6, 8, 12]);
}

#[test]
fn finishing_needs_two_spawns_and_a_pool() {
    let mut m = vec![W; 49];
    for y in 1..6 {
        for x in 1..6 {
            m[y * 7 + x] = F;
        }
    }
    let mut rng = Isaac64Rng::seed_from_u64(4);
    assert!(finish_level(m.clone(), 7, 7, &mut rng).is_none());
    m[8] = P;
    let s = finish_level(m.clone(), 7, 7, &mut rng).unwrap();
    assert_ne!(s.start, s.goal);
    assert_eq!(s.map.cells, m);
    let mut lone = vec![W; 25];
    for y in 1..4 {
        for x in 1..4 {
            lone[y * 5 + x] = F;
        }
    }
    lone[6] = P;
    assert!(finish_level(lone, 5, 5, &mut rng).is_none());
}
