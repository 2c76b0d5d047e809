pub mod backtrack;
pub mod entity;
pub mod placement;

pub use backtrack::backtrack;
pub use entity::{DecodingBoard, EncodingBoard, Point, Square, Tile, AABB};
pub use placement::{candidates, flatten};
