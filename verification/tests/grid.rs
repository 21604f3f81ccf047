use colony::grid::{Grid, Griddable};

struct Dot {
    at: (i32, i32),
    alive: bool,
}

impl Griddable for Dot {
    fn position(&self) -> (i32, i32) {
        self.at
    }

    fn is_alive(&self) -> bool {
        self.alive
    }

    fn pos(&self) -> (i32, i32) {
        self.at
    }

    fn alive(&self) -> bool {
        self.alive
    }
}

#[test]
fn query_finds_what_is_within_the_radius() {
    let mut grid: Grid<Dot> = Grid::new(32);
    let a = grid.insert(Dot { at: (100, 0), alive: true });
    let _b = grid.insert(Dot { at: (-40, 7), alive: true });
    let hits = grid.query_with_dist((90, 0), 10);
    assert_eq!(hits, vec![(100u128, a)]);
    assert!(grid.query_with_dist((90, 0), 9).is_empty());
}

fn dot(x: i32, y: i32) -> Dot {
    Dot { at: (x, y), alive: true }
}

fn brute(points: &[(i32, i32)], p: (i32, i32), r: u32) -> Vec<usize> {
    let mut out = Vec::new();
    for (i, q) in points.iter().enumerate() {
        let dx = (q.0 as i64 - p.0 as i64) as i128;
        let dy = (q.1 as i64 - p.1 as i64) as i128;
        if dx * dx + dy * dy <= (r as i128) * (r as i128) {
            out.push(i);
        }
    }
    out
}

fn scatter(n: usize, span: i32) -> Vec<(i32, i32)> {
    let mut x: u32 = 99;
    let mut out = Vec::new();
    for _ in 0..n {
        x = x.wrapping_mul(1664525).wrapping_add(1013904223);
        let a = (x >> 8) as i32 % span - span / 2;
        x = x.wrapping_mul(1664525).wrapping_add(1013904223);
        let b = (x >> 8) as i32 % span - span / 2;
        out.push((a, b));
    }
    out
}

fn sorted(mut v: Vec<usize>) -> Vec<usize> {
    v.sort();
    v
}

#[test]
fn insert_hands_out_arena_indices() {
    let mut grid: Grid<Dot> = Grid::new(32);
    assert_eq!(grid.insert(dot(0, 0)), 0);
    assert_eq!(grid.insert(dot(1000, -1000)), 1);
    assert_eq!(grid.count(), 2);
    assert_eq!(grid.scale(), 32);
}

#[test]
fn get_finds_by_exact_position() {
    let mut grid: Grid<Dot> = Grid::new(32);
    grid.insert(dot(5, 5));
    grid.insert(dot(6, 5));
    assert_eq!(grid.get((6, 5)).map(|d| d.at), Some((6, 5)));
    assert!(grid.get((7, 5)).is_none());
    assert!(grid.get((500, 500)).is_none());
}

#[test]
fn remove_takes_from_bucket_and_arena() {
    let mut grid: Grid<Dot> = Grid::new(32);
    let a = grid.insert(dot(5, 5));
    let b = grid.insert(dot(6, 5));
    let c = grid.insert(dot(7, 5));
    assert_eq!(grid.remove((5, 5)).map(|d| d.at), Some((5, 5)));
    assert!(grid.remove((5, 5)).is_none());
    assert!(grid.entity(a).is_none());
    assert!(grid.entity(b).is_some());
    assert_eq!(grid.count(), 2);
    assert_eq!(sorted(grid.query_with_dist((6, 5), 10).iter().map(|h| h.1).collect()), vec![b, c]);
    assert_eq!(grid.insert(dot(0, 0)), a);
}

#[test]
fn two_entities_at_one_position_are_found_one_at_a_time() {
    let mut grid: Grid<Dot> = Grid::new(32);
    let a = grid.insert(dot(4, 4));
    let b = grid.insert(dot(4, 4));
    assert_eq!(grid.query_with_dist((4, 4), 0).len(), 2);
    assert!(grid.remove((4, 4)).is_some());
    assert!(grid.entity(a).is_none());
    assert!(grid.entity(b).is_some());
    assert!(grid.remove((4, 4)).is_some());
    assert!(grid.remove((4, 4)).is_none());
}

#[test]
fn query_is_complete_at_any_scale() {
    let points = scatter(300, 2000);
    for scale in [1u32, 7, 32, 500, 100_000] {
        let mut grid: Grid<Dot> = Grid::new(scale);
        for p in &points {
            grid.insert(dot(p.0, p.1));
        }
        for (p, r) in [((0, 0), 0u32), ((10, -20), 150), ((-700, 650), 400), ((999, 999), 3000), ((-3, 4), 5)] {
            let hits = grid.query_with_dist(p, r);
            let found = sorted(hits.iter().map(|h| h.1).collect());
            assert_eq!(found, brute(&points, p, r), "scale {} point {:?} radius {}", scale, p, r);
            for (d, i) in hits {
                let q = points[i];
                let dx = (q.0 - p.0) as i64;
                let dy = (q.1 - p.1) as i64;
                assert_eq!(d, (dx * dx + dy * dy) as u128);
            }
        }
    }
}

#[test]
fn query_skips_the_dead() {
    let mut grid: Grid<Dot> = Grid::new(16);
    let a = grid.insert(dot(1, 1));
    let b = grid.insert(Dot { at: (2, 2), alive: false });
    assert_eq!(grid.query_with_dist((0, 0), 10), vec![(2, a)]);
    assert_eq!(grid.query_at((0, 0), 10).len(), 1);
    assert!(grid.entity(b).is_some());
}

#[test]
fn query_reaches_the_edge_of_the_world() {
    let mut grid: Grid<Dot> = Grid::new(1000);
    let a = grid.insert(dot(i32::MAX, i32::MAX));
    let b = grid.insert(dot(i32::MIN, i32::MIN));
    assert_eq!(grid.query_with_dist((i32::MAX - 3, i32::MAX - 4), 5), vec![(25, a)]);
    assert_eq!(grid.query_with_dist((i32::MIN + 3, i32::MIN + 4), 5), vec![(25, b)]);
}

#[test]
fn nearest_is_the_closest_hit() {
    let mut grid: Grid<Dot> = Grid::new(32);
    grid.insert(dot(100, 0));
    let near = grid.insert(dot(10, 10));
    grid.insert(dot(-50, 0));
    assert_eq!(grid.nearest_dist((0, 0), 200), Some((200, near)));
    assert_eq!(grid.nearest((0, 0), 200).map(|d| d.at), Some((10, 10)));
    assert_eq!(grid.nearest_dist((0, 0), 14), None);
    assert!(grid.nearest((0, 0), 14).is_none());
}

#[test]
fn nearest_by_takes_the_lowest_score_and_skips_rejected() {
    let mut grid: Grid<Dot> = Grid::new(32);
    let a = grid.insert(dot(1, 0));
    let b = grid.insert(dot(5, 0));
    let c = grid.insert(dot(9, 0));
    let farthest = grid.nearest_by((0, 0), 20, |d, _| Some(1000 - d));
    assert_eq!(farthest, Some((1000 - 81, c)));
    let odd = grid.nearest_by((0, 0), 20, |d, dot| if dot.at.0 == 5 { Some(d) } else { None });
    assert_eq!(odd, Some((25, b)));
    let none = grid.nearest_by((0, 0), 20, |_, _| None);
    assert_eq!(none, None);
    let first = grid.nearest_by((0, 0), 20, |d, _| Some(d));
    assert_eq!(first, Some((1, a)));
}

#[test]
fn nearby_pairs_reports_each_pair_once() {
    let points = scatter(120, 400);
    for scale in [3u32, 40, 1000] {
        let mut grid: Grid<Dot> = Grid::new(scale);
        for p in &points {
            grid.insert(dot(p.0, p.1));
        }
        let d = 60u32;
        let pairs = grid.nearby_pairs(d);
        let mut want = Vec::new();
        for i in 0..points.len() {
            for j in 0..points.len() {
                let (a, b) = (points[i], points[j]);
                let dx = (a.0 - b.0) as i64;
                let dy = (a.1 - b.1) as i64;
                if a < b && dx * dx + dy * dy <= (d as i64) * (d as i64) {
                    want.push((i, j));
                }
            }
        }
        let mut got = pairs.clone();
        got.sort();
        want.sort();
        assert_eq!(got, want, "scale {}", scale);
        for (a, b) in &pairs {
            assert!(!pairs.contains(&(*b, *a)));
        }
    }
}

#[test]
fn nearby_pairs_finds_a_pair_that_runs_down_to_the_right() {
    let mut grid: Grid<Dot> = Grid::new(10);
    let a = grid.insert(dot(9, 11));
    let b = grid.insert(dot(11, 9));
    assert_eq!(grid.nearby_pairs(5), vec![(a, b)]);
}

#[test]
fn nearby_pairs_leaves_out_equal_positions_and_the_dead() {
    let mut grid: Grid<Dot> = Grid::new(10);
    grid.insert(dot(1, 1));
    grid.insert(dot(1, 1));
    grid.insert(Dot { at: (2, 1), alive: false });
    assert!(grid.nearby_pairs(5).is_empty());
}

#[test]
fn retain_frees_what_fails_the_test() {
    let mut grid: Grid<Dot> = Grid::new(8);
    for x in 0..20 {
        grid.insert(dot(x * 5, 0));
    }
    grid.retain(|d| d.at.0 % 10 == 0);
    assert_eq!(grid.count(), 10);
    assert!(grid.get((5, 0)).is_none());
    assert!(grid.get((10, 0)).is_some());
    assert_eq!(grid.query_with_dist((0, 0), 1000).len(), 10);
    assert!(grid.entity(1).is_none());
    assert!(grid.entity(2).is_some());
}

#[test]
fn maintain_files_moved_entities_under_their_new_cell() {
    let mut grid: Grid<Dot> = Grid::new(10);
    let a = grid.insert(dot(1, 1));
    let b = grid.insert(dot(2, 2));
    grid.entity_mut(a).unwrap().at = (95, 95);
    assert!(grid.query_with_dist((95, 95), 3).is_empty());
    assert!(grid.get((95, 95)).is_none());
    grid.maintain();
    assert_eq!(grid.query_with_dist((95, 95), 3), vec![(0, a)]);
    assert_eq!(grid.get((95, 95)).map(|d| d.at), Some((95, 95)));
    assert_eq!(grid.query_with_dist((0, 0), 5), vec![(8, b)]);
    assert_eq!(grid.count(), 2);
}

#[test]
fn maintain_frees_the_dead() {
    let mut grid: Grid<Dot> = Grid::new(10);
    let a = grid.insert(dot(1, 1));
    let b = grid.insert(dot(50, 50));
    grid.entity_mut(a).unwrap().alive = false;
    assert_eq!(grid.count(), 2);
    assert_eq!(grid.iter().len(), 1);
    grid.maintain();
    assert_eq!(grid.count(), 1);
    assert!(grid.entity(a).is_none());
    assert!(grid.entity(b).is_some());
    assert_eq!(grid.indices(), vec![b]);
    assert_eq!(grid.insert(dot(0, 0)), a);
}

#[test]
fn after_maintain_every_entity_lies_in_the_cell_it_is_found_under() {
    let points = scatter(200, 600);
    let mut grid: Grid<Dot> = Grid::new(25);
    for p in &points {
        grid.insert(dot(p.0, p.1));
    }
    let mut moved = Vec::new();
    for (i, p) in points.iter().enumerate() {
        let dot = grid.entity_mut(i).unwrap();
        if i % 3 == 0 {
            dot.at = (p.1, -p.0);
        }
        if i % 7 == 0 {
            dot.alive = false;
        } else {
            moved.push(dot.at);
        }
    }
    grid.maintain();
    assert_eq!(grid.count(), moved.len());
    for p in &moved {
        let hits = grid.query_with_dist(*p, 0);
        assert!(!hits.is_empty());
        assert!(grid.get(*p).is_some());
    }
    for cell in grid.cells() {
        assert!(grid.bucket_tidy(cell));
    }
    let all = grid.query_with_dist((0, 0), 5000);
    assert_eq!(all.len(), moved.len());
}

#[test]
fn maintaining_the_untidy_cells_is_enough() {
    let points = scatter(200, 600);
    let mut whole: Grid<Dot> = Grid::new(25);
    let mut part: Grid<Dot> = Grid::new(25);
    for p in &points {
        whole.insert(dot(p.0, p.1));
        part.insert(dot(p.0, p.1));
    }
    for i in 0..points.len() {
        for grid in [&mut whole, &mut part] {
            let dot = grid.entity_mut(i).unwrap();
            if i % 5 == 0 {
                dot.at = (dot.at.0 + 40, dot.at.1 - 40);
            }
            if i % 11 == 0 {
                dot.alive = false;
            }
        }
    }
    whole.maintain();
    let untidy: Vec<(i32, i32)> = part.cells().into_iter().filter(|c| !part.bucket_tidy(*c)).collect();
    assert!(!untidy.is_empty());
    assert!(untidy.len() < part.cells().len());
    part.maintain_cells(&untidy);
    assert_eq!(whole.indices(), part.indices());
    for cell in part.cells() {
        assert!(part.bucket_tidy(cell));
    }
    for p in scatter(40, 600) {
        let a = sorted(whole.query_with_dist(p, 80).iter().map(|h| h.1).collect());
        let b = sorted(part.query_with_dist(p, 80).iter().map(|h| h.1).collect());
        assert_eq!(a, b);
    }
}

#[test]
fn cleanup_drops_empty_buckets_only() {
    let mut grid: Grid<Dot> = Grid::new(10);
    grid.insert(dot(1, 1));
    grid.insert(dot(55, 55));
    grid.remove((1, 1));
    assert_eq!(grid.cells().len(), 2);
    grid.cleanup();
    assert_eq!(grid.cells(), vec![(5, 5)]);
    assert!(grid.get((55, 55)).is_some());
    assert_eq!(grid.count(), 1);
}

#[test]
fn from_iter_inserts_in_order() {
    let grid: Grid<Dot> = Grid::from_iter(32, vec![dot(3, 3), dot(-3, -3), dot(300, 0)]);
    assert_eq!(grid.count(), 3);
    assert_eq!(grid.entity(0).map(|d| d.at), Some((3, 3)));
    assert_eq!(grid.entity(1).map(|d| d.at), Some((-3, -3)));
    assert_eq!(grid.entity(2).map(|d| d.at), Some((300, 0)));
    assert_eq!(grid.iter().len(), 3);
}

#[test]
fn analytics_counts_buckets_and_entities() {
    let mut grid: Grid<Dot> = Grid::new(10);
    let empty = grid.dbg_analytics();
    assert_eq!((empty.cells, empty.len, empty.max, empty.total), (0, 0, None, 0));
    grid.insert(dot(1, 1));
    grid.insert(dot(2, 2));
    grid.insert(dot(3, 3));
    grid.insert(dot(55, 55));
    let stats = grid.dbg_analytics();
    assert_eq!((stats.cells, stats.len, stats.max, stats.total), (2, 4, Some(3), 4));
}

#[test]
fn coordinates_below_zero_fall_in_cells_below_zero() {
    let mut grid: Grid<Dot> = Grid::new(10);
    let a = grid.insert(dot(-1, -1));
    let b = grid.insert(dot(0, 0));
    let mut cells = grid.cells();
    cells.sort();
    assert_eq!(cells, vec![(-1, -1), (0, 0)]);
    assert_eq!(sorted(grid.query_with_dist((0, 0), 2).iter().map(|h| h.1).collect()), vec![a, b]);
}

#[test]
fn parallel_maintenance_leaves_what_maintenance_leaves() {
    let points = scatter(500, 900);
    let mut one: Grid<Dot> = Grid::new(25);
    let mut many: Grid<Dot> = Grid::new(25);
    for p in &points {
        one.insert(dot(p.0, p.1));
        many.insert(dot(p.0, p.1));
    }
    for round in 0..3 {
        for i in one.indices() {
            for grid in [&mut one, &mut many] {
                let dot = grid.entity_mut(i).unwrap();
                if (i + round) % 4 == 0 {
                    dot.at = (dot.at.0 - 30, dot.at.1 + 17);
                }
                if (i + round) % 13 == 0 {
                    dot.alive = false;
                }
            }
        }
        one.maintain();
        many.par_maintain();
        assert_eq!(one.indices(), many.indices());
        assert_eq!(one.count(), many.count());
        for cell in many.cells() {
            assert!(many.bucket_tidy(cell));
        }
        for p in scatter(30, 900) {
            let a = sorted(one.query_with_dist(p, 90).iter().map(|h| h.1).collect());
            let b = sorted(many.query_with_dist(p, 90).iter().map(|h| h.1).collect());
            assert_eq!(a, b);
        }
        assert_eq!(one.insert(dot(0, 0)), many.insert(dot(0, 0)));
    }
}
