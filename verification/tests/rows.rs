use oxydized2048::game::Action;
use oxydized2048::grid::{
    cells_within, count_empty, place_tile, reverse, same_grid, slide, slide_left, transpose,
};
use oxydized2048::row::{power_of_two, floor_log2, slide_row_left, TILE_CAP};

const EMPTY: [[u32; 4]; 4] = [[0; 4]; 4];

fn total(b: &[[u32; 4]; 4]) -> u32 {
    b.iter().map(|r| r.iter().sum::<u32>()).sum()
}

#[test]
fn merge_does_not_chain() {
    assert_eq!(slide_row_left(&[2, 2, 2, 2]), ([4, 4, 0, 0], 8));
}

#[test]
fn slide_row_closes_gaps_then_merges() {
    assert_eq!(slide_row_left(&[2, 0, 2, 4]), ([4, 4, 0, 0], 4));
    assert_eq!(slide_row_left(&[0, 0, 0, 2]), ([2, 0, 0, 0], 0));
    assert_eq!(slide_row_left(&[4, 4, 8, 8]), ([8, 16, 0, 0], 24));
    assert_eq!(slide_row_left(&[2, 2, 2, 0]), ([4, 2, 0, 0], 4));
    assert_eq!(slide_row_left(&[2, 0, 0, 2]), ([4, 0, 0, 0], 4));
    assert_eq!(slide_row_left(&[4, 2, 2, 0]), ([4, 4, 0, 0], 4));
    assert_eq!(slide_row_left(&[8, 0, 4, 4]), ([8, 8, 0, 0], 8));
}

#[test]
fn slide_row_leaves_settled_rows() {
    assert_eq!(slide_row_left(&[2, 4, 2, 4]), ([2, 4, 2, 4], 0));
    assert_eq!(slide_row_left(&[0, 0, 0, 0]), ([0, 0, 0, 0], 0));
    assert_eq!(slide_row_left(&[2, 4, 0, 0]), ([2, 4, 0, 0], 0));
}

#[test]
fn slide_row_at_the_cap() {
    assert_eq!(
        slide_row_left(&[TILE_CAP, TILE_CAP, TILE_CAP, TILE_CAP]),
        ([2 * TILE_CAP, 2 * TILE_CAP, 0, 0], 4 * TILE_CAP)
    );
}

#[test]
fn turns_of_the_board() {
    let b = [[1, 2, 3, 4], [5, 6, 7, 8], [9, 10, 11, 12], [13, 14, 15, 16]];
    assert_eq!(reverse(&b), [[4, 3, 2, 1], [8, 7, 6, 5], [12, 11, 10, 9], [16, 15, 14, 13]]);
    assert_eq!(transpose(&b), [[1, 5, 9, 13], [2, 6, 10, 14], [3, 7, 11, 15], [4, 8, 12, 16]]);
    assert_eq!(reverse(&reverse(&b)), b);
    assert_eq!(transpose(&transpose(&b)), b);
}

#[test]
fn slide_in_each_direction() {
    let b = [[2, 2, 0, 0], [0, 4, 0, 4], [2, 0, 0, 0], [0, 0, 0, 8]];
    assert_eq!(
        slide(&b, Action::MergeLeft),
        ([[4, 0, 0, 0], [8, 0, 0, 0], [2, 0, 0, 0], [8, 0, 0, 0]], 12)
    );
    assert_eq!(
        slide(&b, Action::MergeRight),
        ([[0, 0, 0, 4], [0, 0, 0, 8], [0, 0, 0, 2], [0, 0, 0, 8]], 12)
    );
    assert_eq!(
        slide(&b, Action::MergeUp),
        ([[4, 2, 0, 4], [0, 4, 0, 8], [0, 0, 0, 0], [0, 0, 0, 0]], 4)
    );
    assert_eq!(
        slide(&b, Action::MergeDown),
        ([[0, 0, 0, 0], [0, 0, 0, 0], [0, 2, 0, 4], [4, 4, 0, 8]], 4)
    );
    assert_eq!(slide_left(&b), slide(&b, Action::MergeLeft));
}

#[test]
fn merge_rule_is_the_same_towards_either_edge() {
    let b = [[2, 2, 2, 0], [0; 4], [0; 4], [0; 4]];
    assert_eq!(slide(&b, Action::MergeLeft).0[0], [4, 2, 0, 0]);
    assert_eq!(slide(&b, Action::MergeRight).0[0], [0, 0, 2, 4]);
}

#[test]
fn a_move_keeps_the_sum_of_the_tiles() {
    let boards = [
        [[2, 2, 4, 4], [8, 0, 8, 0], [16, 16, 16, 16], [2, 4, 8, 16]],
        [[0, 0, 0, 2], [2, 0, 0, 2], [4, 4, 4, 0], [1024, 1024, 2048, 2048]],
        [[2, 4, 2, 4], [4, 2, 4, 2], [2, 4, 2, 4], [4, 2, 4, 2]],
    ];
    let dirs = [Action::MergeLeft, Action::MergeRight, Action::MergeUp, Action::MergeDown];
    for b in boards.iter() {
        for d in dirs.iter() {
            let (moved, _) = slide(b, *d);
            assert_eq!(total(&moved), total(b));
        }
    }
}

#[test]
fn merged_sum_counts_the_new_tiles() {
    let b = [[2, 2, 4, 4], [8, 8, 0, 0], [0; 4], [0; 4]];
    assert_eq!(slide(&b, Action::MergeLeft).1, 4 + 8 + 16);
    assert_eq!(slide(&b, Action::MergeUp).1, 0);
}

#[test]
fn counting_empty_cells() {
    assert_eq!(count_empty(&EMPTY), 16);
    assert_eq!(count_empty(&[[2, 0, 0, 0], [0, 4, 0, 0], [0; 4], [0, 0, 0, 8]]), 13);
    assert_eq!(count_empty(&[[2; 4]; 4]), 0);
}

#[test]
fn place_tile_counts_empty_cells_in_reading_order() {
    let b = [[2, 0, 4, 0], [0; 4], [0; 4], [8, 8, 8, 0]];
    assert_eq!(place_tile(&b, 0, false), [[2, 2, 4, 0], [0; 4], [0; 4], [8, 8, 8, 0]]);
    assert_eq!(place_tile(&b, 1, true), [[2, 0, 4, 4], [0; 4], [0; 4], [8, 8, 8, 0]]);
    assert_eq!(place_tile(&b, 2, false), [[2, 0, 4, 0], [2, 0, 0, 0], [0; 4], [8, 8, 8, 0]]);
    assert_eq!(place_tile(&b, 10, false), [[2, 0, 4, 0], [0; 4], [0; 4], [8, 8, 8, 2]]);
}

#[test]
fn place_tile_wraps_the_slot() {
    let b = [[2, 0, 4, 0], [0; 4], [0; 4], [8, 8, 8, 0]];
    assert_eq!(count_empty(&b), 11);
    assert_eq!(place_tile(&b, 11, false), place_tile(&b, 0, false));
    assert_eq!(place_tile(&b, 4_000_000_000, true), place_tile(&b, 4_000_000_000 % 11, true));
}

#[test]
fn place_tile_on_a_full_board_changes_nothing() {
    let b = [[2, 4, 2, 4], [4, 2, 4, 2], [2, 4, 2, 4], [4, 2, 4, 2]];
    assert_eq!(place_tile(&b, 3, true), b);
}

#[test]
fn place_tile_fills_one_cell() {
    let b = [[2, 0, 4, 0], [0, 16, 0, 0], [0; 4], [8, 8, 8, 0]];
    for slot in 0..40u32 {
        let out = place_tile(&b, slot, slot % 3 == 0);
        assert_eq!(count_empty(&out) + 1, count_empty(&b));
        assert_eq!(total(&out), total(&b) + if slot % 3 == 0 { 4 } else { 2 });
    }
}

#[test]
fn same_grid_compares_every_cell() {
    let b = [[2, 0, 4, 0], [0; 4], [0; 4], [8, 8, 8, 0]];
    let mut c = b;
    assert!(same_grid(&b, &c));
    c[3][3] = 2;
    assert!(!same_grid(&b, &c));
}

#[test]
fn binary_logarithm_rounds_down() {
    assert_eq!(floor_log2(0), 0);
    assert_eq!(floor_log2(1), 0);
    assert_eq!(floor_log2(2), 1);
    assert_eq!(floor_log2(3), 1);
    assert_eq!(floor_log2(4), 2);
    assert_eq!(floor_log2(1023), 9);
    assert_eq!(floor_log2(1024), 10);
    assert_eq!(floor_log2(u32::MAX), 31);
}

#[test]
fn binary_logarithm_agrees_with_fast_math_on_tiles() {
    assert_eq!(floor_log2(0), fast_math::log2(0.0) as u32);
    for k in 1..=24u32 {
        let v: u32 = 1 << k;
        assert_eq!(floor_log2(v), fast_math::log2(v as f32) as u32);
        assert_eq!(floor_log2(v), k);
    }
}

#[test]
fn powers_of_two() {
    assert!(power_of_two(1));
    assert!(power_of_two(2));
    assert!(power_of_two(1 << 31));
    assert!(!power_of_two(0));
    assert!(!power_of_two(6));
    assert!(!power_of_two(u32::MAX));
}

#[test]
fn cells_within_looks_at_tiles_and_cap() {
    assert!(cells_within(&EMPTY, 4));
    assert!(cells_within(&[[2, 4, 8, 0], [0; 4], [0; 4], [0; 4]], 8));
    assert!(!cells_within(&[[2, 4, 8, 0], [0; 4], [0; 4], [0; 4]], 4));
    assert!(!cells_within(&[[2, 3, 0, 0], [0; 4], [0; 4], [0; 4]], 1024));
    assert!(!cells_within(&[[1, 0, 0, 0], [0; 4], [0; 4], [0; 4]], 1024));
}
