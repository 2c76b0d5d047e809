use tile_solver::{backtrack, candidates, flatten, DecodingBoard, EncodingBoard, Point, Square, Tile, AABB};

fn pt(x: i32, y: i32) -> Point {
    Point { x, y }
}

fn tile(coords: &[(i32, i32)]) -> Tile {
    Tile::new(coords.iter().map(|&(x, y)| pt(x, y)).collect())
}

fn sorted(mut v: Vec<u64>) -> Vec<u64> {
    v.sort();
    v
}

#[test]
fn domino_candidates_on_two_by_two() {
    let board = EncodingBoard::new(vec![AABB::new(pt(0, 0), pt(1, 1))]);
    let masks = candidates(&board, tile(&[(0, 0), (1, 0)]));
    assert_eq!(sorted(masks), vec![0b0011, 0b0101, 0b1010, 0b1100]);
}

#[test]
fn monomino_candidates_are_single_cells() {
    let board = EncodingBoard::new(vec![AABB::new(pt(0, 0), pt(1, 1))]);
    let masks = candidates(&board, tile(&[(0, 0)]));
    assert_eq!(sorted(masks), vec![1, 2, 4, 8]);
}

#[test]
fn tile_larger_than_board_has_no_candidates() {
    let board = EncodingBoard::new(vec![AABB::new(pt(0, 0), pt(1, 0))]);
    let masks = candidates(&board, tile(&[(0, 0), (1, 0), (2, 0)]));
    assert!(masks.is_empty());
}

#[test]
fn flatten_filters_and_lays_out_slices() {
    let configs = vec![vec![0b01u64, 0b10], vec![0b11, 0b100]];
    let (placements, indices) = flatten(&configs, 0b01);
    assert_eq!(placements, vec![0b10, 0b100]);
    assert_eq!(indices, vec![0, 1, 2]);
}

#[test]
fn flatten_keeps_empty_slices_visible() {
    let configs = vec![vec![0b01u64], vec![]];
    let (placements, indices) = flatten(&configs, 0);
    assert_eq!(placements, vec![0b01]);
    assert_eq!(indices, vec![0, 1, 1]);
}

#[test]
fn calendar_puzzle_is_solved() {
    let make_board = || {
        EncodingBoard::new(vec![
            AABB::new(pt(0, 0), pt(2, 0)),
            AABB::new(pt(0, 1), pt(6, 4)),
            AABB::new(pt(0, 5), pt(5, 6)),
        ])
    };
    let board = make_board();
    let tiles = vec![
        tile(&[(0, 2), (0, 1), (0, 0), (1, 0), (2, 0)]),
        tile(&[(0, 3), (0, 2), (0, 1), (0, 0), (1, 0)]),
        tile(&[(1, 3), (0, 2), (1, 2), (0, 1), (0, 0)]),
        tile(&[(0, 2), (1, 2), (0, 1), (1, 1), (0, 0), (1, 0)]),
        tile(&[(0, 2), (0, 1), (1, 1), (0, 0), (1, 0)]),
        tile(&[(0, 2), (1, 2), (0, 1), (0, 0), (1, 0)]),
        tile(&[(0, 3), (0, 2), (0, 1), (1, 1), (0, 0)]),
        tile(&[(2, 2), (0, 1), (1, 1), (2, 1), (0, 0)]),
    ];
    let configs: Vec<Vec<u64>> = tiles.into_iter().map(|t| candidates(&board, t)).collect();
    let initial = board.encode(&[pt(3, 5), pt(5, 3)]).unwrap();
    assert_eq!(initial.count_ones(), 2);
    let (placements, indices) = flatten(&configs, initial);
    assert!(indices.windows(2).all(|w| w[0] < w[1]));
    let solution = backtrack(initial, &placements, &indices).expect("the puzzle has a solution");
    assert_eq!(solution.len(), 8);
    let mut union = initial;
    let mut d = DecodingBoard::from(board);
    for (id, &local) in solution.iter().enumerate() {
        let mask = placements[indices[id] + local];
        assert_eq!(union & mask, 0);
        union |= mask;
        d.decode(mask, Some(id as u8));
    }
    assert_eq!(union, (1u64 << 43) - 1);
    d.decode(initial, None);
    let mut uncovered = 0;
    for r in 0..d.height() {
        for c in 0..d.width(r) {
            match d.square(r, c) {
                Square::Unknown => panic!("square left unknown"),
                Square::Uncovered => uncovered += 1,
                Square::Covered { .. } => {}
            }
        }
    }
    assert_eq!(uncovered, 2);
    assert_eq!(make_board().points().len(), 43);
}
