use galaxy_sim::grid::{cell_count, collision_pairs, Grid};

fn grid(x: usize, y: usize, z: usize) -> Grid {
    Grid { size_x: x, size_y: y, size_z: z }
}

/// Straightforward restatement of the grid pass, used as an oracle.
fn oracle(g: &Grid, coords: &[(usize, usize, usize)]) -> Vec<(usize, usize)> {
    let total = g.size_x * g.size_y * g.size_z;
    let mut cells: Vec<Vec<usize>> = vec![Vec::new(); total];
    for (k, &(x, y, z)) in coords.iter().enumerate() {
        let idx = (x as u128 * g.size_y as u128 + y as u128) * g.size_z as u128 + z as u128;
        if idx < total as u128 {
            cells[idx as usize].push(k);
        }
    }
    let mut out = Vec::new();
    for x in 0..g.size_x {
        for y in 0..g.size_y {
            for z in 0..g.size_z {
                let c = (x * g.size_y + y) * g.size_z + z;
                for dx in 0..=1 {
                    for dy in 0..=1 {
                        for dz in 0..=1 {
                            let (nx, ny, nz) = (x + dx, y + dy, z + dz);
                            if nx >= g.size_x || ny >= g.size_y || nz >= g.size_z {
                                continue;
                            }
                            let m = (nx * g.size_y + ny) * g.size_z + nz;
                            for &i in &cells[c] {
                                for &j in &cells[m] {
                                    if m == c && i >= j {
                                        continue;
                                    }
                                    out.push((i, j));
                                }
                            }
                        }
                    }
                }
            }
        }
    }
    out
}

struct Lcg(u64);

impl Lcg {
    fn next(&mut self, bound: usize) -> usize {
        self.0 = self.0.wrapping_mul(6364136223846793005).wrapping_add(1442695040888963407);
        ((self.0 >> 33) as usize) % bound
    }
}

#[test]
fn cell_count_saturates() {
    assert_eq!(cell_count(&grid(2, 3, 4)), 24);
    assert_eq!(cell_count(&grid(1, 1, 1)), 1);
    assert_eq!(cell_count(&grid(0, 5, 5)), 0);
    assert_eq!(cell_count(&grid(usize::MAX, 2, 1)), usize::MAX);
    assert_eq!(cell_count(&grid(usize::MAX, usize::MAX, 0)), 0);
    assert_eq!(cell_count(&grid(1 << 40, 1 << 40, 1)), usize::MAX);
}

#[test]
fn one_cell_pairs_each_body_with_the_later_ones() {
    let coords = vec![(0, 0, 0); 3];
    assert_eq!(collision_pairs(&grid(1, 1, 1), &coords), vec![(0, 1), (0, 2), (1, 2)]);
}

#[test]
fn forward_neighbours_are_paired() {
    // body 0 in (0,0,0), body 1 in (1,1,1), body 2 in (0,0,1)
    let coords = vec![(0, 0, 0), (1, 1, 1), (0, 0, 1)];
    assert_eq!(collision_pairs(&grid(2, 2, 2), &coords), vec![(0, 2), (0, 1), (2, 1)]);
}

#[test]
fn anti_diagonal_neighbours_are_not_paired() {
    // (0,1,0) and (1,0,0) touch, but neither is a forward step from the other
    let coords = vec![(0, 1, 0), (1, 0, 0)];
    assert!(collision_pairs(&grid(2, 2, 1), &coords).is_empty());
}

#[test]
fn distant_cells_are_not_paired() {
    let coords = vec![(0, 0, 0), (2, 0, 0)];
    assert!(collision_pairs(&grid(3, 1, 1), &coords).is_empty());
}

#[test]
fn bodies_outside_the_grid_are_left_out() {
    // (5,0,0) numbers cell 5 of a 2-cell grid; (usize::MAX, 0, 0) overflows
    let coords = vec![(0, 0, 0), (5, 0, 0), (usize::MAX, 0, 0), (1, 0, 0)];
    assert_eq!(collision_pairs(&grid(2, 1, 1), &coords), vec![(0, 3)]);
}

#[test]
fn cells_are_numbered_by_flat_index() {
    // (0,2,0) in a 2x2x1 grid numbers cell 2, which is (1,0,0)
    let coords = vec![(1, 0, 0), (0, 2, 0)];
    assert_eq!(collision_pairs(&grid(2, 2, 1), &coords), vec![(0, 1)]);
}

#[test]
fn fewer_than_two_bodies_give_no_pairs() {
    assert!(collision_pairs(&grid(3, 3, 3), &vec![]).is_empty());
    assert!(collision_pairs(&grid(3, 3, 3), &vec![(1, 1, 1)]).is_empty());
}

#[test]
fn empty_grid_gives_no_pairs() {
    let coords = vec![(0, 0, 0), (0, 0, 0)];
    assert!(collision_pairs(&grid(0, 4, 4), &coords).is_empty());
    assert!(collision_pairs(&grid(4, 4, 0), &coords).is_empty());
}

#[test]
fn agrees_with_oracle_on_random_inputs() {
    let mut rng = Lcg(7);
    for _ in 0..300 {
        let g = grid(1 + rng.next(4), 1 + rng.next(4), 1 + rng.next(4));
        let n = rng.next(12);
        let coords: Vec<(usize, usize, usize)> = (0..n)
            .map(|_| (rng.next(g.size_x + 1), rng.next(g.size_y + 1), rng.next(g.size_z + 1)))
            .collect();
        assert_eq!(collision_pairs(&g, &coords), oracle(&g, &coords));
    }
}

#[test]
fn every_pair_once_and_never_reversed() {
    let mut rng = Lcg(11);
    for _ in 0..200 {
        let g = grid(1 + rng.next(3), 1 + rng.next(3), 1 + rng.next(3));
        let n = rng.next(15);
        let coords: Vec<(usize, usize, usize)> = (0..n)
            .map(|_| (rng.next(g.size_x), rng.next(g.size_y), rng.next(g.size_z)))
            .collect();
        let pairs = collision_pairs(&g, &coords);
        for (a, p) in pairs.iter().enumerate() {
            for q in pairs[a + 1..].iter() {
                assert_ne!(p, q);
            }
            assert!(!pairs.contains(&(p.1, p.0)));
        }
        // bodies sharing a cell are always paired, earlier body first
        for i in 0..n {
            for j in (i + 1)..n {
                if coords[i] == coords[j] {
                    assert!(pairs.contains(&(i, j)));
                }
            }
        }
    }
}
