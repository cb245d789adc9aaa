use boxpack::grid::{GridOccupancy, PackError};
use boxpack::shuffle::shuffled_indices;
use nannou::rand::rngs::StdRng;
use nannou::rand::SeedableRng;

#[test]
fn new_grid_is_empty() {
    let g = GridOccupancy::new(4, 3).unwrap();
    assert_eq!(g.width(), 4);
    assert_eq!(g.height(), 3);
    for y in 0..3 {
        for x in 0..4 {
            assert_eq!(g.is_occupied(x, y), Ok(false));
        }
    }
}

#[test]
fn new_grid_rejects_zero_side() {
    assert!(matches!(GridOccupancy::new(0, 3), Err(PackError::InvalidDimensions)));
    assert!(matches!(GridOccupancy::new(3, 0), Err(PackError::InvalidDimensions)));
}

#[test]
fn marking_is_idempotent_and_row_major() {
    let mut g = GridOccupancy::new(4, 3).unwrap();
    assert_eq!(g.mark_occupied(1, 2), Ok(()));
    assert_eq!(g.mark_occupied(1, 2), Ok(()));
    assert_eq!(g.is_occupied(1, 2), Ok(true));
    assert_eq!(g.is_occupied(2, 1), Ok(false));
    assert!(g.occupied_at(2 * 4 + 1));
}

#[test]
fn out_of_bounds_cells_are_refused() {
    let mut g = GridOccupancy::new(4, 3).unwrap();
    assert_eq!(g.is_occupied(4, 0), Err(PackError::OutOfBounds));
    assert_eq!(g.is_occupied(0, 3), Err(PackError::OutOfBounds));
    assert_eq!(g.mark_occupied(4, 0), Err(PackError::OutOfBounds));
}

#[test]
fn fit_test_and_commit_ignore_outside_cells() {
    let mut g = GridOccupancy::new(3, 3).unwrap();
    assert!(g.square_fits(-2, -2, 3));
    g.mark_square(-2, -2, 3);
    assert_eq!(g.is_occupied(0, 0), Ok(true));
    assert_eq!(g.is_occupied(1, 0), Ok(false));
    assert_eq!(g.is_occupied(0, 1), Ok(false));
    assert!(!g.square_fits(-1, -1, 2));
    assert!(g.square_fits(1, 1, 5));
}

#[test]
fn rows_render_as_text() {
    let mut g = GridOccupancy::new(3, 2).unwrap();
    g.mark_occupied(0, 1).unwrap();
    g.mark_occupied(2, 1).unwrap();
    assert_eq!(g.render_row(0), vec!['-', '-', '-']);
    assert_eq!(g.render_row(1), vec!['x', '-', 'x']);
}

#[test]
fn shuffled_indices_are_a_permutation() {
    let mut rng = StdRng::seed_from_u64(5);
    let order = shuffled_indices(50, &mut rng);
    let mut sorted = order.clone();
    sorted.sort();
    assert_eq!(sorted, (0..50).collect::<Vec<usize>>());
    assert_ne!(order, (0..50).collect::<Vec<usize>>());
}
