use tile_solver::backtrack;

#[test]
fn two_pieces_partition_the_board() {
    let placements = vec![0b0011u64, 0b1100];
    let indices = vec![0usize, 1, 2];
    let result = backtrack(0, &placements, &indices);
    assert_eq!(result, Some(vec![0, 0]));
    let chosen = result.unwrap();
    let mut board = 0u64;
    for (piece, &local) in chosen.iter().enumerate() {
        board |= placements[indices[piece] + local];
    }
    assert_eq!(board, 0b1111);
}

#[test]
fn overlapping_only_candidates_have_no_solution() {
    let placements = vec![0b0011u64, 0b0011];
    let indices = vec![0usize, 1, 2];
    assert_eq!(backtrack(0, &placements, &indices), None);
}

#[test]
fn backtracks_to_second_candidate_of_first_piece() {
    // Piece 0: 0b0011 blocks every candidate of piece 1, 0b1001 does not.
    // Piece 1: 0b0110 and 0b0010. Piece 2: 0b0100 and 0b1_0000.
    let placements = vec![0b0011u64, 0b1001, 0b0110, 0b0010, 0b0100, 0b1_0000];
    let indices = vec![0usize, 2, 4, 6];
    let result = backtrack(0, &placements, &indices);
    assert_eq!(result, Some(vec![1, 0, 1]));
    let chosen = result.unwrap();
    let mut board = 0u64;
    for (piece, &local) in chosen.iter().enumerate() {
        let mask = placements[indices[piece] + local];
        assert_eq!(board & mask, 0);
        board |= mask;
    }
    assert_eq!(board, 0b1_1111);
}

#[test]
fn initial_board_blocks_candidates() {
    let placements = vec![0b0001u64, 0b0010, 0b0100];
    let indices = vec![0usize, 3];
    assert_eq!(backtrack(0b0011, &placements, &indices), Some(vec![2]));
    assert_eq!(backtrack(0b0111, &placements, &indices), None);
}

#[test]
fn zero_mask_is_a_valid_candidate() {
    let placements = vec![0b0001u64, 0u64];
    let indices = vec![0usize, 1, 2];
    assert_eq!(backtrack(0b0001, &placements, &indices), None);
    assert_eq!(backtrack(0, &placements, &indices), Some(vec![0, 0]));
}

#[test]
fn first_solution_in_lexicographic_order() {
    let placements = vec![0b01u64, 0b10, 0b01, 0b10];
    let indices = vec![0usize, 2, 4];
    assert_eq!(backtrack(0, &placements, &indices), Some(vec![0, 1]));
}

#[test]
fn deep_backtracking_over_several_levels() {
    // Only piece 0's last candidate leaves room for pieces 1 and 2.
    let placements = vec![0b001u64, 0b010, 0b100, 0b011, 0b110, 0b101, 0b011, 0b110];
    let indices = vec![0usize, 3, 6, 8];
    let result = backtrack(0, &placements, &indices);
    assert_eq!(result, None);
    let placements = vec![0b0001u64, 0b1000, 0b0010, 0b0001, 0b0001];
    let indices = vec![0usize, 2, 4, 5];
    assert_eq!(backtrack(0, &placements, &indices), Some(vec![1, 0, 0]));
}
