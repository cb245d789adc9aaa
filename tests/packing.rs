use boxpack::grid::PackError;
use boxpack::packer::{make_offset, pack, pack_with_orders, PlacedSquare};

fn covers(w: usize, sq: &PlacedSquare, i: usize) -> bool {
    let x = (i % w) as isize;
    let y = (i / w) as isize;
    let s = sq.size as isize;
    sq.top_left_x <= x && x < sq.top_left_x + s && sq.top_left_y <= y && y < sq.top_left_y + s
}

fn cover_counts(w: usize, h: usize, placed: &[PlacedSquare]) -> Vec<usize> {
    (0..w * h)
        .map(|i| placed.iter().filter(|sq| covers(w, sq, i)).count())
        .collect()
}

#[test]
fn offset_table() {
    assert_eq!(make_offset(1), 0);
    assert_eq!(make_offset(2), 0);
    assert_eq!(make_offset(3), 1);
    assert_eq!(make_offset(5), 2);
    assert_eq!(make_offset(8), 3);
    assert_eq!(make_offset(13), 6);
    assert_eq!(make_offset(100), 49);
}

#[test]
fn three_by_three_center_first() {
    let sizes = vec![3, 1];
    let orders = vec![vec![4, 0, 1, 2, 3, 5, 6, 7, 8], vec![0, 1, 2, 3, 4, 5, 6, 7, 8]];
    let placed = pack_with_orders(3, 3, &sizes, &orders).unwrap();
    assert_eq!(
        placed,
        vec![PlacedSquare { top_left_x: 0, top_left_y: 0, size: 3 }]
    );
    assert!(cover_counts(3, 3, &placed).iter().all(|&c| c == 1));
}

#[test]
fn one_by_one_with_size_two() {
    let sizes = vec![2, 1];
    let orders = vec![vec![0], vec![0]];
    let placed = pack_with_orders(1, 1, &sizes, &orders).unwrap();
    assert_eq!(
        placed,
        vec![PlacedSquare { top_left_x: 0, top_left_y: 0, size: 2 }]
    );
}

#[test]
fn zero_width_is_invalid_dimensions() {
    assert_eq!(pack(0, 5, &vec![1], 7), Err(PackError::InvalidDimensions));
    assert_eq!(pack(5, 0, &vec![1], 7), Err(PackError::InvalidDimensions));
    assert_eq!(
        pack_with_orders(0, 5, &vec![1], &vec![vec![]]),
        Err(PackError::InvalidDimensions)
    );
}

#[test]
fn zero_size_is_invalid_size() {
    assert_eq!(pack(5, 5, &vec![0], 7), Err(PackError::InvalidSize));
    assert_eq!(pack(5, 5, &vec![3, 0, 1], 7), Err(PackError::InvalidSize));
}

#[test]
fn seeded_packing_has_no_overlap_and_covers_every_cell() {
    let sizes = vec![13, 8, 5, 3, 2, 1];
    let placed = pack(40, 30, &sizes, 2024).unwrap();
    let counts = cover_counts(40, 30, &placed);
    assert!(counts.iter().all(|&c| c == 1));
    assert!(placed.iter().any(|sq| sq.size > 1));
}

#[test]
fn without_unit_size_no_cell_is_covered_twice() {
    let placed = pack(25, 25, &vec![8, 5, 3], 11).unwrap();
    assert!(!placed.is_empty());
    assert!(cover_counts(25, 25, &placed).iter().all(|&c| c <= 1));
}

#[test]
fn same_seed_gives_same_packing() {
    let sizes = vec![100, 13, 8, 5, 3, 2, 1];
    let a = pack(60, 60, &sizes, 99).unwrap();
    let b = pack(60, 60, &sizes, 99).unwrap();
    assert_eq!(a, b);
}

#[test]
fn same_orders_give_same_packing() {
    let sizes = vec![3, 2, 1];
    let order: Vec<usize> = (0..36).rev().collect();
    let orders = vec![order.clone(), order.clone(), order];
    let a = pack_with_orders(6, 6, &sizes, &orders).unwrap();
    let b = pack_with_orders(6, 6, &sizes, &orders).unwrap();
    assert_eq!(a, b);
}

#[test]
fn square_past_the_corner_is_clipped() {
    let sizes = vec![3];
    let orders = vec![vec![0, 1, 2, 3]];
    let placed = pack_with_orders(2, 2, &sizes, &orders).unwrap();
    assert_eq!(
        placed,
        vec![PlacedSquare { top_left_x: -1, top_left_y: -1, size: 3 }]
    );
}

#[test]
fn non_square_grid_uses_width_as_stride() {
    let sizes = vec![1];
    let orders = vec![vec![5, 0, 1, 2, 3, 4]];
    let placed = pack_with_orders(3, 2, &sizes, &orders).unwrap();
    assert_eq!(placed.len(), 6);
    assert_eq!(placed[0], PlacedSquare { top_left_x: 2, top_left_y: 1, size: 1 });
}

#[test]
fn rejected_candidate_marks_nothing() {
    let sizes = vec![1, 3, 1];
    let orders = vec![vec![4], vec![0, 1, 2, 3, 5, 6, 7, 8], vec![0, 1, 2, 3, 5, 6, 7, 8]];
    let placed = pack_with_orders(3, 3, &sizes, &orders).unwrap();
    assert_eq!(placed.len(), 9);
    assert!(placed.iter().all(|sq| sq.size == 1));
}

#[test]
fn out_of_range_visit_index_is_skipped() {
    let placed = pack_with_orders(2, 2, &vec![1], &vec![vec![9, 0]]).unwrap();
    assert_eq!(placed, vec![PlacedSquare { top_left_x: 0, top_left_y: 0, size: 1 }]);
}
