use rand::SeedableRng;
use rand_isaac::Isaac64Rng;
use sewer_gen::level::{Coord, Sewer, SewerCell, SewerSpec, Size};
use sewer_gen::sewer::SewerError;

fn spec(width: u32, height: u32) -> SewerSpec {
    SewerSpec {
        size: Size { width, height },
    }
}

fn cell(s: &Sewer, x: u32, y: u32) -> SewerCell {
    s.map.cells[(y * s.map.width + x) as usize]
}

fn index(s: &Sewer, c: Coord) -> usize {
    (c.y * s.map.width + c.x) as usize
}

/// Cells reached from `from` over non-wall cells, by a plain breadth-first search.
fn reached(s: &Sewer, from: Coord) -> Vec<bool> {
    let w = s.map.width as usize;
    let h = s.map.height as usize;
    let mut seen = vec![false; w * h];
    let mut queue = vec![index(s, from)];
    seen[index(s, from)] = true;
    while let Some(i) = queue.pop() {
        let (x, y) = (i % w, i / w);
        let mut next = Vec::new();
        if x > 0 {
            next.push(i - 1);
        }
        if x + 1 < w {
            next.push(i + 1);
        }
        if y > 0 {
            next.push(i - w);
        }
        if y + 1 < h {
            next.push(i + w);
        }
        for j in next {
            if !seen[j] && s.map.cells[j] != SewerCell::Wall {
                seen[j] = true;
                queue.push(j);
            }
        }
    }
    seen
}

fn generate(width: u32, height: u32, seed: u64) -> Sewer {
    let mut rng = Isaac64Rng::seed_from_u64(seed);
    Sewer::generate(spec(width, height), &mut rng).unwrap()
}

#[test]
fn level_is_one_connected_area() {
    let s = generate(40, 20, 7);
    let seen = reached(&s, s.start);
    for (i, c) in s.map.cells.iter().enumerate() {
        assert_eq!(*c != SewerCell::Wall, seen[i], "cell {}", i);
    }
}

#[test]
fn start_and_goal_differ_and_connect() {
    let s = generate(40, 20, 11);
    assert_ne!(s.start, s.goal);
    assert!(reached(&s, s.start)[index(&s, s.goal)]);
}

#[test]
fn spawn_cells_are_safe() {
    let s = generate(40, 20, 12);
    for c in [s.start, s.goal] {
        assert_eq!(cell(&s, c.x, c.y), SewerCell::Floor);
        assert_eq!(cell(&s, c.x + 1, c.y), SewerCell::Floor);
        assert_eq!(cell(&s, c.x - 1, c.y), SewerCell::Floor);
        assert_eq!(cell(&s, c.x, c.y + 1), SewerCell::Floor);
        assert_eq!(cell(&s, c.x, c.y - 1), SewerCell::Floor);
    }
}

#[test]
fn level_has_a_pool() {
    let s = generate(40, 20, 13);
    assert!(s.map.cells.iter().any(|c| *c == SewerCell::Pool));
}

#[test]
fn border_is_wall_or_pool() {
    let s = generate(40, 20, 14);
    for x in 0..40 {
        for y in [0, 19] {
            let c = cell(&s, x, y);
            assert!(c == SewerCell::Wall || c == SewerCell::Pool);
        }
    }
    for y in 0..20 {
        for x in [0, 39] {
            let c = cell(&s, x, y);
            assert!(c == SewerCell::Wall || c == SewerCell::Pool);
        }
    }
}

#[test]
fn same_seed_same_level() {
    let mut a = Isaac64Rng::seed_from_u64(99);
    let mut b = Isaac64Rng::seed_from_u64(99);
    let (sa, na) = Sewer::generate_counted(spec(40, 20), &mut a, 1000).unwrap();
    let (sb, nb) = Sewer::generate_counted(spec(40, 20), &mut b, 1000).unwrap();
    assert_eq!(na, nb);
    assert_eq!(sa.start, sb.start);
    assert_eq!(sa.goal, sb.goal);
    assert_eq!(sa.map.cells, sb.map.cells);
    assert_eq!(sa.lights, sb.lights);
}

#[test]
fn bridges_and_doors_sit_between_regions() {
    let s = generate(40, 20, 21);
    for y in 0..20u32 {
        for x in 0..40u32 {
            match cell(&s, x, y) {
                SewerCell::Door => {
                    assert!(x > 0 && x < 39 && y > 0 && y < 19);
                    let vertical = cell(&s, x, y - 1) != SewerCell::Wall
                        && cell(&s, x, y + 1) != SewerCell::Wall;
                    let horizontal = cell(&s, x - 1, y) != SewerCell::Wall
                        && cell(&s, x + 1, y) != SewerCell::Wall;
                    assert!(vertical || horizontal);
                }
                SewerCell::Bridge => {
                    assert!(x > 0 && x < 39 && y > 0 && y < 19);
                }
                _ => {}
            }
        }
    }
}

#[test]
fn forty_by_twenty_scenario() {
    let s = generate(40, 20, 1234);
    assert_eq!(s.map.width, 40);
    assert_eq!(s.map.height, 20);
    assert_eq!(s.map.cells.len(), 800);
    let seen = reached(&s, s.start);
    let open = s.map.cells.iter().filter(|c| **c != SewerCell::Wall).count();
    assert_eq!(seen.iter().filter(|b| **b).count(), open);
    let dx = (s.start.x as i64 - s.goal.x as i64).abs();
    let dy = (s.start.y as i64 - s.goal.y as i64).abs();
    assert!(dx + dy >= 10, "start {:?} goal {:?}", s.start, s.goal);
    let again = generate(40, 20, 1234);
    assert_eq!(s.map.cells, again.map.cells);
    assert_eq!(s.start, again.start);
    assert_eq!(s.goal, again.goal);
}

#[test]
fn smallest_size_ends_with_a_level_or_a_count() {
    let mut rng = Isaac64Rng::seed_from_u64(5);
    match Sewer::generate_counted(spec(3, 3), &mut rng, 20) {
        Ok((_, n)) => assert!(n >= 1 && n <= 20),
        Err(e) => assert_eq!(e, SewerError::OutOfAttempts),
    }
}

#[test]
fn too_small_is_a_configuration_error() {
    let mut rng = Isaac64Rng::seed_from_u64(5);
    assert_eq!(
        Sewer::generate(spec(2, 10), &mut rng).err(),
        Some(SewerError::TooSmall)
    );
    assert_eq!(
        Sewer::generate(spec(10, 0), &mut rng).err(),
        Some(SewerError::TooSmall)
    );
}

#[test]
fn lights_cover_pool_edges() {
    let s = generate(40, 20, 31);
    let lit: Vec<usize> = s.lights.iter().map(|l| index(&s, l.coord)).collect();
    for &i in &lit {
        assert_eq!(s.map.cells[i], SewerCell::Pool);
    }
    for y in 0..20u32 {
        for x in 0..40u32 {
            if cell(&s, x, y) != SewerCell::Pool {
                continue;
            }
            let edge = x == 0
                || y == 0
                || x == 39
                || y == 19
                || cell(&s, x - 1, y) == SewerCell::Floor
                || cell(&s, x + 1, y) == SewerCell::Floor
                || cell(&s, x, y - 1) == SewerCell::Floor
                || cell(&s, x, y + 1) == SewerCell::Floor;
            if edge {
                assert!(lit.contains(&((y * 40 + x) as usize)));
            }
        }
    }
}

#[test]
fn grid_get_reads_by_coordinate() {
    let s = generate(40, 20, 41);
    assert_eq!(s.map.get(s.start), Some(SewerCell::Floor));
    assert_eq!(s.map.get(Coord { x: 40, y: 0 }), None);
    assert_eq!(s.map.get(Coord { x: 0, y: 20 }), None);
}
