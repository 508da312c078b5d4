use jigsaw::jigsaw::{Jigsaw, Solutions};
use jigsaw::pieces::{rotate_sides, PieceState, Rotation, Side};
use jigsaw::random::{pick_side, side_from_draw};
use jigsaw::retry::{solve_attempt, solve_attempts};
use jigsaw::settings::{Settings, SettingsError};

fn settings(grid_size: usize, min_solutions: usize, side_types: u8) -> Settings {
    Settings { grid_size, min_solutions, side_types }
}

fn values(sides: &[Side; 4]) -> [i8; 4] {
    [sides[0].0, sides[1].0, sides[2].0, sides[3].0]
}

fn cell(grid: &[Vec<Option<PieceState>>], y: usize, x: usize) -> PieceState {
    grid[y][x].expect("cell is occupied")
}

fn assert_valid_solution(grid: &[Vec<Option<PieceState>>], n: usize) {
    assert_eq!(grid.len(), n);
    let mut seen = vec![false; n * n];
    for y in 0..n {
        assert_eq!(grid[y].len(), n);
        for x in 0..n {
            let p = cell(grid, y, x);
            let s = values(&p.piece.sides);
            if y == 0 {
                assert_eq!(s[0], 0);
            }
            if x == n - 1 {
                assert_eq!(s[1], 0);
            }
            if y == n - 1 {
                assert_eq!(s[2], 0);
            }
            if x == 0 {
                assert_eq!(s[3], 0);
            }
            if x + 1 < n {
                assert_eq!(s[1] as i16 + cell(grid, y, x + 1).piece.sides[3].0 as i16, 0);
            }
            if y + 1 < n {
                assert_eq!(s[2] as i16 + cell(grid, y + 1, x).piece.sides[0].0 as i16, 0);
            }
            assert!(p.piece.id < n * n);
            assert!(!seen[p.piece.id]);
            seen[p.piece.id] = true;
        }
    }
    assert!(seen.iter().all(|b| *b));
}

fn all_ones() -> (Vec<i8>, Vec<i8>) {
    (vec![1, 1, 1, 1], vec![1, 1, 1, 1])
}

fn symmetric() -> (Vec<i8>, Vec<i8>) {
    (vec![1, 1, -1, 1], vec![1, -1, 1, 1])
}

#[test]
fn sides_match_when_they_cancel() {
    assert!(Side(3).matches(&Side(-3)));
    assert!(Side(-1).matches(&Side(1)));
    assert!(Side(0).matches(&Side(0)));
    assert!(!Side(2).matches(&Side(2)));
    assert!(!Side(2).matches(&Side(-1)));
    assert!(Side(127).matches(&Side(-127)));
}

#[test]
fn rotation_moves_each_edge_one_place_clockwise() {
    let s = [Side(1), Side(2), Side(3), Side(4)];
    assert_eq!(values(&rotate_sides(&s, Rotation::Degrees0)), [1, 2, 3, 4]);
    assert_eq!(values(&rotate_sides(&s, Rotation::Degrees90)), [4, 1, 2, 3]);
    assert_eq!(values(&rotate_sides(&s, Rotation::Degrees180)), [3, 4, 1, 2]);
    assert_eq!(values(&rotate_sides(&s, Rotation::Degrees270)), [2, 3, 4, 1]);
}

#[test]
fn generation_follows_the_construction_rule() {
    let (r, b) = all_ones();
    let j = Jigsaw::generate_with(2, &settings(2, 1, 1), &r, &b);
    let grid = j.grid();
    assert_eq!(grid.len(), 2);
    let origin = cell(&grid, 0, 0);
    assert_eq!(origin.piece.id, 0);
    assert_eq!(origin.rotation(), Rotation::Degrees0);
    assert_eq!(values(&origin.piece.sides), [0, 1, 1, 0]);
    assert!(grid[0][1].is_none() && grid[1][0].is_none() && grid[1][1].is_none());
    let pool = j.pool();
    assert_eq!(pool.len(), 3);
    assert_eq!(pool[0].piece.id, 1);
    assert_eq!(values(&pool[0].piece.sides), [0, 0, 1, -1]);
    assert_eq!(pool[1].piece.id, 2);
    assert_eq!(values(&pool[1].piece.sides), [-1, 1, 0, 0]);
    assert_eq!(pool[2].piece.id, 3);
    assert_eq!(values(&pool[2].piece.sides), [-1, 0, 0, -1]);
    assert!(!j.is_solved());
}

#[test]
fn generation_is_reproducible_from_the_drawn_values() {
    let r = vec![2, -3, 1, 1, -2, 3, 1, -1, 2];
    let b = vec![-1, 2, 3, -3, 1, -2, 2, 1, -1];
    let a = Jigsaw::generate_with(3, &settings(3, 1, 3), &r, &b);
    let c = Jigsaw::generate_with(3, &settings(3, 1, 3), &r, &b);
    assert_eq!(a.pool(), c.pool());
    assert_eq!(a.grid(), c.grid());
    // the drawn edges show up negated on the neighbour
    let pool = a.pool();
    assert_eq!(values(&pool[0].piece.sides), [0, -3, 2, -2]);
    assert_eq!(values(&pool[3].piece.sides), [-2, -2, 1, -1]);
}

#[test]
fn generated_pieces_interlock_whatever_is_drawn() {
    for size in 1..5usize {
        let j = Jigsaw::generate(size, &settings(size, 1, 6));
        let mut layout: Vec<Vec<Option<PieceState>>> = vec![vec![None; size]; size];
        layout[0][0] = j.grid()[0][0];
        for p in j.pool() {
            layout[p.piece.id / size][p.piece.id % size] = Some(p);
        }
        assert_valid_solution(&layout, size);
        for row in &layout {
            for c in row {
                for s in c.unwrap().piece.sides.iter() {
                    assert!(-6 <= s.0 && s.0 <= 6);
                }
            }
        }
    }
}

#[test]
fn two_by_two_search_finds_the_one_assembly() {
    let (r, b) = all_ones();
    let mut j = Jigsaw::generate_with(2, &settings(2, 1, 1), &r, &b);
    let mut solutions: Solutions = Vec::new();
    j.try_solve(&mut solutions);
    assert_eq!(solutions.len(), 1);
    let s = &solutions[0];
    assert_valid_solution(s, 2);
    assert_eq!(cell(s, 0, 1).piece.id, 1);
    assert_eq!(cell(s, 1, 0).piece.id, 2);
    assert_eq!(cell(s, 1, 1).piece.id, 3);
    assert_eq!(cell(s, 1, 1).rotation(), Rotation::Degrees0);
}

#[test]
fn symmetric_two_by_two_has_two_assemblies() {
    let (r, b) = symmetric();
    let mut j = Jigsaw::generate_with(2, &settings(2, 1, 1), &r, &b);
    let mut solutions: Solutions = Vec::new();
    j.try_solve(&mut solutions);
    assert_eq!(solutions.len(), 2);
    for s in &solutions {
        assert_valid_solution(s, 2);
    }
    assert_ne!(cell(&solutions[0], 0, 1).piece.id, cell(&solutions[1], 0, 1).piece.id);
}

#[test]
fn search_leaves_grid_and_pool_unchanged() {
    let r = vec![1, -2, 2, 1, 1, -1, 2, 2, 1];
    let b = vec![2, 1, -1, -2, 2, 1, 1, 1, 2];
    let mut j = Jigsaw::generate_with(3, &settings(3, 1, 2), &r, &b);
    let grid = j.grid();
    let pool = j.pool();
    let mut solutions: Solutions = Vec::new();
    j.try_solve(&mut solutions);
    assert!(!solutions.is_empty());
    for s in &solutions {
        assert_valid_solution(s, 3);
    }
    assert_eq!(j.grid(), grid);
    assert_eq!(j.pool(), pool);
}

#[test]
fn search_keeps_earlier_solutions() {
    let (r, b) = all_ones();
    let mut j = Jigsaw::generate_with(2, &settings(2, 1, 1), &r, &b);
    let mut solutions: Solutions = Vec::new();
    j.try_solve(&mut solutions);
    let first = solutions.clone();
    j.try_solve(&mut solutions);
    assert_eq!(solutions.len(), 2);
    assert_eq!(solutions[0], first[0]);
    assert_eq!(solutions[1], first[0]);
}

#[test]
fn one_piece_puzzle_is_its_own_assembly() {
    let mut j = Jigsaw::generate_with(1, &settings(1, 1, 1), &vec![1], &vec![-1]);
    assert!(j.is_solved());
    assert!(j.pool().is_empty());
    let grid = j.grid();
    let mut solutions: Solutions = Vec::new();
    j.try_solve(&mut solutions);
    assert_eq!(solutions.len(), 1);
    assert_eq!(solutions[0], grid);
    let only = cell(&solutions[0], 0, 0);
    assert_eq!(only.piece.id, 0);
    assert_eq!(only.rotation(), Rotation::Degrees0);
    assert_eq!(values(&only.piece.sides), [0, 0, 0, 0]);
    assert_eq!(j.grid(), grid);
}

#[test]
fn one_piece_retry_accepts_the_first_attempt() {
    let attempts = vec![(vec![1], vec![1])];
    let (index, solutions) = solve_attempts(&settings(1, 1, 1), &attempts).expect("one assembly");
    assert_eq!(index, 0);
    assert_eq!(solutions.len(), 1);
    assert!(solve_attempts(&settings(1, 2, 1), &attempts).is_none());
}

#[test]
fn random_puzzle_has_valid_assemblies() {
    let mut j = Jigsaw::generate(3, &settings(3, 1, 2));
    let mut solutions: Solutions = Vec::new();
    j.try_solve(&mut solutions);
    assert!(!solutions.is_empty());
    for s in &solutions {
        assert_valid_solution(s, 3);
    }
}

#[test]
fn retry_discards_attempts_with_too_few_assemblies() {
    let attempts = vec![all_ones(), symmetric()];
    let r = solve_attempts(&settings(2, 2, 1), &attempts);
    let (index, solutions) = r.expect("second attempt has two assemblies");
    assert_eq!(index, 1);
    assert_eq!(solutions.len(), 2);
    for s in &solutions {
        assert_valid_solution(s, 2);
    }
}

#[test]
fn retry_reports_when_no_attempt_suffices() {
    let attempts = vec![all_ones(), all_ones()];
    assert!(solve_attempts(&settings(2, 2, 1), &attempts).is_none());
    let first = solve_attempts(&settings(2, 1, 1), &attempts).expect("one is enough");
    assert_eq!(first.0, 0);
}

#[test]
fn single_random_attempt_meets_a_minimum_of_one() {
    let s = solve_attempt(&settings(2, 1, 3)).expect("every puzzle has its own layout");
    assert!(!s.is_empty());
    for g in &s {
        assert_valid_solution(g, 2);
    }
}

#[test]
fn drawn_sides_cover_shapes_and_signs() {
    let mut magnitudes = [false; 7];
    let mut positive = false;
    let mut negative = false;
    for _ in 0..400 {
        let v = pick_side(6);
        assert!(v != 0 && -6 <= v && v <= 6);
        magnitudes[v.unsigned_abs() as usize] = true;
        positive |= v > 0;
        negative |= v < 0;
    }
    assert!(positive && negative);
    assert!(magnitudes[1..].iter().filter(|b| **b).count() >= 2);
    assert!(!magnitudes[0]);
}

#[test]
fn invalid_settings_are_rejected() {
    assert_eq!(settings(10, 2, 6).validate(), Ok(()));
    assert_eq!(settings(0, 2, 6).validate(), Err(SettingsError::ZeroGridSize));
    assert_eq!(settings(3, 0, 6).validate(), Err(SettingsError::ZeroMinSolutions));
    assert_eq!(settings(3, 2, 0).validate(), Err(SettingsError::ZeroSideTypes));
    assert_eq!(settings(3, 2, 128).validate(), Err(SettingsError::TooManySideTypes));
    assert_eq!(settings(usize::MAX, 2, 6).validate(), Err(SettingsError::GridTooLarge));
    assert_eq!(settings(3, 2, 127).validate(), Ok(()));
}

#[test]
fn drawn_shape_takes_the_drawn_sign() {
    assert_eq!(side_from_draw(3, true), 3);
    assert_eq!(side_from_draw(3, false), -3);
    assert_eq!(side_from_draw(1, false), -1);
    assert_eq!(side_from_draw(127, false), -127);
    assert_eq!(side_from_draw(127, true), 127);
}
