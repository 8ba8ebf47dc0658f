use sunoku::board::{Board, BoardError, SolvingMethod};

fn board_from(size: usize, values: &[u8]) -> Board {
    let mut b = Board::init(size).unwrap();
    b.loads(values.to_vec()).unwrap();
    b
}

fn is_valid_solution(b: &Board) -> bool {
    let n = b.size();
    let s = b.segment_size();
    let full: Vec<u8> = (1..=n as u8).collect();
    for r in 0..n {
        let mut row: Vec<u8> = (0..n).map(|c| b.value(r, c)).collect();
        row.sort();
        if row != full {
            return false;
        }
    }
    for c in 0..n {
        let mut col: Vec<u8> = (0..n).map(|r| b.value(r, c)).collect();
        col.sort();
        if col != full {
            return false;
        }
    }
    for br in 0..s {
        for bc in 0..s {
            let mut block = Vec::new();
            for r in br * s..br * s + s {
                for c in bc * s..bc * s + s {
                    block.push(b.value(r, c));
                }
            }
            block.sort();
            if block != full {
                return false;
            }
        }
    }
    true
}

const PUZZLE_4: [u8; 16] = [1, 0, 0, 4, 0, 0, 1, 0, 0, 1, 0, 0, 4, 0, 0, 1];

const PUZZLE_9: &str = "530070000600195000098000060800060003400803001700020006060000280000419005000080079";
const SOLUTION_9: &str = "534678912672195348198342567859761423426853791713924856961537284287419635345286179";

fn digits(s: &str) -> Vec<u8> {
    s.bytes().map(|b| b - b'0').collect()
}

#[test]
fn init_gives_all_zero_cells_for_squares() {
    for size in [1usize, 4, 9, 16, 25, 225] {
        let b = Board::init(size).unwrap();
        assert_eq!(b.size(), size);
        let cells = b.cells();
        assert_eq!(cells.len(), size * size);
        assert!(cells.iter().all(|&v| v == 0));
    }
    assert_eq!(Board::init(9).unwrap().segment_size(), 3);
    assert_eq!(Board::init(16).unwrap().segment_size(), 4);
}

#[test]
fn init_rejects_bad_sizes() {
    for size in [0usize, 2, 3, 5, 8, 10, 15, 226, 256, 1000] {
        assert_eq!(Board::init(size).err(), Some(BoardError::Configuration));
    }
}

#[test]
fn loads_rejects_wrong_count() {
    let mut b = Board::init(4).unwrap();
    assert_eq!(b.loads(vec![0; 15]), Err(BoardError::InputShape));
    assert_eq!(b.loads(vec![0; 17]), Err(BoardError::InputShape));
    assert!(b.cells().iter().all(|&v| v == 0));
}

#[test]
fn loads_rejects_out_of_range_value() {
    let mut b = Board::init(4).unwrap();
    let mut values = PUZZLE_4.to_vec();
    values[5] = 5;
    assert_eq!(b.loads(values), Err(BoardError::ValueRange));
    assert!(b.cells().iter().all(|&v| v == 0));
}

#[test]
fn loads_fills_row_major() {
    let b = board_from(4, &PUZZLE_4);
    assert_eq!(b.cells(), PUZZLE_4.to_vec());
    assert_eq!(b.value(0, 3), 4);
    assert_eq!(b.value(1, 2), 1);
    assert_eq!(b.value(3, 0), 4);
}

#[test]
fn four_by_four_naive() {
    let mut b = board_from(4, &PUZZLE_4);
    assert!(b.solve(SolvingMethod::Naive));
    assert!(is_valid_solution(&b));
    assert_eq!(b.cells(), vec![1, 2, 3, 4, 3, 4, 1, 2, 2, 1, 4, 3, 4, 3, 2, 1]);
}

#[test]
fn four_by_four_propagation() {
    let mut b = board_from(4, &PUZZLE_4);
    assert!(b.solve(SolvingMethod::BaxStrat));
    assert!(is_valid_solution(&b));
    assert_eq!(&b.cells()[0..4], &[1, 2, 3, 4]);
}

#[test]
fn two_ones_in_a_block_fail_unchanged() {
    let values = [1, 0, 0, 0, 0, 1, 0, 0, 0, 0, 0, 0, 0, 0, 0, 0];
    for method in [SolvingMethod::Naive, SolvingMethod::BaxStrat] {
        let mut b = board_from(4, &values);
        assert!(!b.solve(method));
        assert_eq!(b.cells(), values.to_vec());
    }
}

#[test]
fn duplicate_in_row_fails() {
    let values = [2, 0, 2, 0, 0, 0, 0, 0, 0, 0, 0, 0, 0, 0, 0, 0];
    for method in [SolvingMethod::Naive, SolvingMethod::BaxStrat] {
        let mut b = board_from(4, &values);
        assert!(!b.solve(method));
        assert_eq!(b.cells(), values.to_vec());
    }
}

#[test]
fn duplicate_in_full_row_fails() {
    let mut values = digits(SOLUTION_9);
    values[1] = values[0];
    for method in [SolvingMethod::Naive, SolvingMethod::BaxStrat] {
        let mut b = board_from(9, &values);
        assert!(!b.solve(method));
    }
}

#[test]
fn complete_grid_is_kept() {
    let values = digits(SOLUTION_9);
    for method in [SolvingMethod::Naive, SolvingMethod::BaxStrat] {
        let mut b = board_from(9, &values);
        assert!(b.solve(method));
        assert_eq!(b.cells(), values);
    }
}

#[test]
fn classic_nine_by_nine_propagation() {
    let mut b = board_from(9, &digits(PUZZLE_9));
    assert!(b.solve(SolvingMethod::BaxStrat));
    assert!(is_valid_solution(&b));
    assert_eq!(b.cells(), digits(SOLUTION_9));
}

#[test]
fn classic_nine_by_nine_naive() {
    let mut b = board_from(9, &digits(PUZZLE_9));
    assert!(b.solve(SolvingMethod::Naive));
    assert_eq!(b.cells(), digits(SOLUTION_9));
}

#[test]
fn strategies_agree() {
    let puzzles: Vec<(usize, Vec<u8>)> = vec![
        (4, PUZZLE_4.to_vec()),
        (4, vec![0; 16]),
        (9, digits(PUZZLE_9)),
        (9, vec![0; 81]),
        (1, vec![0]),
    ];
    for (size, values) in puzzles {
        let mut a = board_from(size, &values);
        let mut b = board_from(size, &values);
        assert!(a.solve(SolvingMethod::Naive));
        assert!(b.solve(SolvingMethod::BaxStrat));
        assert!(is_valid_solution(&a));
        assert_eq!(a.cells(), b.cells());
    }
}

#[test]
fn empty_board_gets_first_solution() {
    let mut b = board_from(4, &[0; 16]);
    assert!(b.solve(SolvingMethod::Naive));
    assert_eq!(b.cells(), vec![1, 2, 3, 4, 3, 4, 1, 2, 2, 1, 4, 3, 4, 3, 2, 1]);
}

#[test]
fn unsolvable_without_clash() {
    // No clash among the givens, yet cell (0, 0) has no legal value.
    let values = [0, 2, 0, 0, 3, 4, 0, 0, 0, 0, 0, 0, 0, 0, 0, 0];
    let mut values = values.to_vec();
    values[8] = 1;
    for method in [SolvingMethod::Naive, SolvingMethod::BaxStrat] {
        let mut b = board_from(4, &values);
        assert!(!b.solve(method));
    }
}

#[test]
fn single_cell_board() {
    let mut b = board_from(1, &[0]);
    assert!(b.solve(SolvingMethod::BaxStrat));
    assert_eq!(b.cells(), vec![1]);
}

#[test]
fn classic_nine_by_nine_needs_propagation_only() {
    let mut b = board_from(9, &digits(PUZZLE_9));
    assert!(b.propagate_constraints());
    assert_eq!(b.cells(), digits(SOLUTION_9));
}

#[test]
fn propagation_leaves_hard_cells_empty() {
    let mut b = board_from(4, &[0; 16]);
    assert!(!b.propagate_constraints());
    assert_eq!(b.cells(), vec![0; 16]);
}

#[test]
fn propagation_refuses_clashing_givens() {
    let values = [1, 0, 0, 0, 0, 1, 0, 0, 0, 0, 0, 0, 0, 0, 0, 0];
    let mut b = board_from(4, &values);
    assert!(!b.propagate_constraints());
    assert_eq!(b.cells(), values.to_vec());
}

#[test]
fn propagation_then_backtracking_matches_propagation() {
    let mut a = board_from(4, &PUZZLE_4);
    a.propagate_constraints();
    let partial = a.cells();
    assert!(a.solve(SolvingMethod::Naive));
    let mut b = board_from(4, &PUZZLE_4);
    assert!(b.solve(SolvingMethod::BaxStrat));
    assert_eq!(a.cells(), b.cells());
    for (i, v) in partial.iter().enumerate() {
        if *v != 0 {
            assert_eq!(a.cells()[i], *v);
        }
    }
}
