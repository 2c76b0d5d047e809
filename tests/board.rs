use tile_solver::{DecodingBoard, EncodingBoard, Point, Square, AABB};

fn pt(x: i32, y: i32) -> Point {
    Point { x, y }
}

fn small_board() -> EncodingBoard {
    // Row y = 0: x = 0..2; rows y = 1..2: x = 0..1.
    EncodingBoard::new(vec![AABB::new(pt(0, 0), pt(2, 0)), AABB::new(pt(0, 1), pt(1, 2))])
}

#[test]
fn cells_are_numbered_in_region_order() {
    let board = small_board();
    assert_eq!(board.points(), vec![pt(0, 0), pt(1, 0), pt(2, 0), pt(0, 1), pt(1, 1), pt(0, 2), pt(1, 2)]);
    assert_eq!(board.encode(&[pt(0, 0)]), Some(1));
    assert_eq!(board.encode(&[pt(2, 0)]), Some(4));
    assert_eq!(board.encode(&[pt(1, 2)]), Some(64));
    assert_eq!(board.encode(&[pt(0, 0), pt(0, 1), pt(1, 2)]), Some(0b100_1001));
}

#[test]
fn every_cell_has_its_own_power_of_two() {
    let board = small_board();
    let points = board.points();
    assert_eq!(points.len(), 3 * 1 + 2 * 2);
    let mut seen = 0u64;
    for p in &points {
        let m = board.encode(&[*p]).unwrap();
        assert_eq!(m.count_ones(), 1);
        assert_eq!(seen & m, 0);
        seen |= m;
    }
    assert_eq!(seen, (1u64 << points.len()) - 1);
}

#[test]
fn encode_absent_off_board_or_empty() {
    let board = small_board();
    assert_eq!(board.encode(&[]), None);
    assert_eq!(board.encode(&[pt(2, 1)]), None);
    assert_eq!(board.encode(&[pt(0, 0), pt(5, 5)]), None);
}

#[test]
fn encode_repeated_point_is_its_bit() {
    let board = small_board();
    assert_eq!(board.encode(&[pt(1, 1), pt(1, 1)]), Some(16));
}

#[test]
fn full_board_of_sixty_four_cells() {
    let board = EncodingBoard::new(vec![AABB::new(pt(0, 0), pt(7, 7))]);
    assert_eq!(board.encode(&[pt(7, 7)]), Some(1u64 << 63));
    assert_eq!(board.encode(&board.points()), Some(u64::MAX));
}

#[test]
fn decoding_board_lays_out_rows_top_down() {
    let d = DecodingBoard::from(small_board());
    assert_eq!(d.height(), 3);
    assert_eq!(d.width(0), 2);
    assert_eq!(d.width(1), 2);
    assert_eq!(d.width(2), 3);
    assert_eq!(d.point(0, 0), pt(0, 2));
    assert_eq!(d.point(0, 1), pt(1, 2));
    assert_eq!(d.point(2, 2), pt(2, 0));
    assert_eq!(d.location(0), (2, 0));
    assert_eq!(d.location(6), (0, 1));
    for r in 0..3 {
        for c in 0..d.width(r) {
            assert_eq!(d.square(r, c), Square::Unknown);
        }
    }
}

#[test]
fn round_trip_point_mask_square() {
    let board = small_board();
    let points = board.points();
    let masks: Vec<u64> = points.iter().map(|p| board.encode(&[*p]).unwrap()).collect();
    for (p, m) in points.iter().zip(masks.iter()) {
        let mut d = DecodingBoard::from(small_board());
        d.decode(*m, Some(3));
        let mut found = Vec::new();
        for r in 0..d.height() {
            for c in 0..d.width(r) {
                if d.square(r, c) != Square::Unknown {
                    found.push((r, c));
                }
            }
        }
        assert_eq!(found.len(), 1);
        let (r, c) = found[0];
        assert_eq!(d.square(r, c), Square::Covered { tile_id: 3 });
        assert_eq!(d.point(r, c), *p);
        assert_eq!(board.encode(&[d.point(r, c)]), Some(*m));
    }
}

#[test]
fn decoding_marks_piece_and_pre_occupied_cells() {
    let board = small_board();
    let piece = board.encode(&[pt(0, 0), pt(1, 0), pt(2, 0)]).unwrap();
    let rest = board.encode(&[pt(0, 1), pt(1, 1), pt(0, 2), pt(1, 2)]).unwrap();
    let mut d = DecodingBoard::from(board);
    d.decode(piece, Some(5));
    d.decode(rest, None);
    for c in 0..3 {
        assert_eq!(d.square(2, c), Square::Covered { tile_id: 5 });
    }
    for r in 0..2 {
        for c in 0..2 {
            assert_eq!(d.square(r, c), Square::Uncovered);
        }
    }
}

#[test]
fn later_decode_overwrites_earlier() {
    let board = small_board();
    let m = board.encode(&[pt(1, 1)]).unwrap();
    let mut d = DecodingBoard::from(board);
    d.decode(m, Some(1));
    d.decode(m, Some(2));
    assert_eq!(d.square(1, 1), Square::Covered { tile_id: 2 });
    d.decode(0, Some(9));
    assert_eq!(d.square(1, 1), Square::Covered { tile_id: 2 });
    assert_eq!(d.square(1, 0), Square::Unknown);
}
