use tile_solver::{Point, Tile, AABB};

fn pt(x: i32, y: i32) -> Point {
    Point { x, y }
}

fn l_tile() -> Tile {
    Tile::new(vec![pt(0, 2), pt(0, 1), pt(0, 0), pt(1, 0), pt(2, 0)])
}

#[test]
fn point_rotation_and_reflection() {
    assert_eq!(pt(2, 3).rotated_ccw_90(), pt(-3, 2));
    assert_eq!(pt(2, 3).reflected_over_vert(), pt(-2, 3));
    assert_eq!(pt(2, 3).translated(pt(-5, 1)), pt(-3, 4));
}

#[test]
fn four_rotations_restore_the_tile() {
    let mut tile = l_tile();
    let before = tile.offset_points(pt(0, 0));
    tile.rotate_ccw_90();
    assert_eq!(tile.offset_points(pt(0, 0)), vec![pt(-2, 0), pt(-1, 0), pt(0, 0), pt(0, 1), pt(0, 2)]);
    tile.rotate_ccw_90();
    tile.rotate_ccw_90();
    assert_ne!(tile.offset_points(pt(0, 0)), before);
    tile.rotate_ccw_90();
    assert_eq!(tile.offset_points(pt(0, 0)), before);
}

#[test]
fn two_reflections_restore_the_tile() {
    let mut tile = l_tile();
    let before = tile.offset_points(pt(0, 0));
    tile.reflect_over_vert();
    assert_eq!(tile.offset_points(pt(0, 0)), vec![pt(0, 2), pt(0, 1), pt(0, 0), pt(-1, 0), pt(-2, 0)]);
    tile.reflect_over_vert();
    assert_eq!(tile.offset_points(pt(0, 0)), before);
}

#[test]
fn offset_points_translates_every_point() {
    let tile = l_tile();
    assert_eq!(tile.offset_points(pt(3, -1)), vec![pt(3, 1), pt(3, 0), pt(3, -1), pt(4, -1), pt(5, -1)]);
}

#[test]
fn aabb_points_row_by_row() {
    let aabb = AABB::new(pt(0, 0), pt(2, 1));
    assert_eq!(aabb.points(), vec![pt(0, 0), pt(1, 0), pt(2, 0), pt(0, 1), pt(1, 1), pt(2, 1)]);
    let single = AABB::new(pt(-1, -1), pt(-1, -1));
    assert_eq!(single.points(), vec![pt(-1, -1)]);
}
