use vstd::prelude::*;

verus! {

/// A lattice point. Positive `x` points right, positive `y` points up.
#[derive(Clone, Copy, PartialEq, Eq, Structural, Hash, Debug)]
pub struct Point {
    pub x: i32,
    pub y: i32,
}

/// The anchor of every tile.
pub open spec fn origin() -> Point {
    Point { x: 0, y: 0 }
}

/// `(x, y)` turned a quarter turn counter-clockwise: `(-y, x)`.
pub open spec fn rotated_spec(p: Point) -> Point {
    Point { x: (-p.y) as i32, y: p.x }
}

/// `(x, y)` mirrored over the vertical axis: `(-x, y)`.
pub open spec fn reflected_spec(p: Point) -> Point {
    Point { x: (-p.x) as i32, y: p.y }
}

/// Both coordinates can be negated without overflow.
pub open spec fn negatable(p: Point) -> bool {
    p.x != i32::MIN && p.y != i32::MIN
}

/// The componentwise sum of `p` and `q` fits in `i32`.
pub open spec fn sum_fits(p: Point, q: Point) -> bool {
    i32::MIN <= p.x + q.x <= i32::MAX && i32::MIN <= p.y + q.y <= i32::MAX
}

pub open spec fn translated_spec(p: Point, q: Point) -> Point {
    Point { x: (p.x + q.x) as i32, y: (p.y + q.y) as i32 }
}

impl Point {
    pub fn rotated_ccw_90(&self) -> (r: Point)
        requires
            self.y != i32::MIN,
        ensures
            r == rotated_spec(*self),
    {
        Point { x: -self.y, y: self.x }
    }

    pub fn reflected_over_vert(&self) -> (r: Point)
        requires
            self.x != i32::MIN,
        ensures
            r == reflected_spec(*self),
    {
        Point { x: -self.x, y: self.y }
    }

    /// Componentwise sum.
    pub fn translated(self, offset: Point) -> (r: Point)
        requires
            sum_fits(self, offset),
        ensures
            r == translated_spec(self, offset),
    {
        Point { x: self.x + offset.x, y: self.y + offset.y }
    }
}

/// Quarter-turn rotation of every point.
pub open spec fn rotate_all(s: Seq<Point>) -> Seq<Point> {
    s.map_values(|p: Point| rotated_spec(p))
}

/// Mirror image of every point.
pub open spec fn reflect_all(s: Seq<Point>) -> Seq<Point> {
    s.map_values(|p: Point| reflected_spec(p))
}

/// A polyomino-like shape: points relative to an anchor at the origin.
pub struct Tile {
    points: Vec<Point>,
}

impl View for Tile {
    type V = Seq<Point>;

    closed spec fn view(&self) -> Seq<Point> {
        self.points@
    }
}

impl Tile {
    #[verifier::type_invariant]
    spec fn has_anchor(self) -> bool {
        self.points@.contains(origin())
    }

    pub fn new(points: Vec<Point>) -> (r: Tile)
        requires
            points@.contains(origin()),
        ensures
            r@ == points@,
    {
        Tile { points }
    }

    pub fn rotate_ccw_90(&mut self)
        requires
            forall|i: int| 0 <= i < old(self)@.len() ==> negatable(#[trigger] old(self)@[i]),
        ensures
            final(self)@ == rotate_all(old(self)@),
    {
        proof {
            use_type_invariant(&*self);
            assert forall|k: int| 0 <= k < self.points@.len() implies negatable(#[trigger] self.points@[k]) by {
                assert(negatable(old(self)@[k]));
            }
        }
        let mut out: Vec<Point> = Vec::new();
        let mut i: usize = 0;
        while i < self.points.len()
            invariant
                i <= self.points@.len(),
                self.points@ == old(self)@,
                forall|k: int| 0 <= k < self.points@.len() ==> negatable(#[trigger] self.points@[k]),
                out@ == rotate_all(self.points@.take(i as int)),
            decreases self.points@.len() - i,
        {
            out.push(self.points[i].rotated_ccw_90());
            proof {
                assert(self.points@.take(i + 1) =~= self.points@.take(i as int).push(self.points@[i as int]));
                assert(out@ =~= rotate_all(self.points@.take(i + 1)));
            }
            i = i + 1;
        }
        proof {
            assert(self.points@.take(i as int) =~= self.points@);
            let k = choose|k: int| 0 <= k < self.points@.len() && self.points@[k] == origin();
            assert(out@[k] == origin());
        }
        self.points = out;
    }

    pub fn reflect_over_vert(&mut self)
        requires
            forall|i: int| 0 <= i < old(self)@.len() ==> negatable(#[trigger] old(self)@[i]),
        ensures
            final(self)@ == reflect_all(old(self)@),
    {
        proof {
            use_type_invariant(&*self);
            assert forall|k: int| 0 <= k < self.points@.len() implies negatable(#[trigger] self.points@[k]) by {
                assert(negatable(old(self)@[k]));
            }
        }
        let mut out: Vec<Point> = Vec::new();
        let mut i: usize = 0;
        while i < self.points.len()
            invariant
                i <= self.points@.len(),
                self.points@ == old(self)@,
                forall|k: int| 0 <= k < self.points@.len() ==> negatable(#[trigger] self.points@[k]),
                out@ == reflect_all(self.points@.take(i as int)),
            decreases self.points@.len() - i,
        {
            out.push(self.points[i].reflected_over_vert());
            proof {
                assert(self.points@.take(i + 1) =~= self.points@.take(i as int).push(self.points@[i as int]));
                assert(out@ =~= reflect_all(self.points@.take(i + 1)));
            }
            i = i + 1;
        }
        proof {
            assert(self.points@.take(i as int) =~= self.points@);
            let k = choose|k: int| 0 <= k < self.points@.len() && self.points@[k] == origin();
            assert(out@[k] == origin());
        }
        self.points = out;
    }

    /// The tile's points, each translated by `offset`; the tile is left as it is.
    pub fn offset_points(&self, offset: Point) -> (r: Vec<Point>)
        requires
            forall|i: int| 0 <= i < self@.len() ==> sum_fits(#[trigger] self@[i], offset),
        ensures
            r@ == self@.map_values(|p: Point| translated_spec(p, offset)),
    {
        proof {
            assert forall|k: int| 0 <= k < self.points@.len() implies sum_fits(#[trigger] self.points@[k], offset) by {
                assert(sum_fits(self@[k], offset));
            }
        }
        let mut out: Vec<Point> = Vec::new();
        let mut i: usize = 0;
        while i < self.points.len()
            invariant
                i <= self.points@.len(),
                forall|k: int| 0 <= k < self.points@.len() ==> sum_fits(#[trigger] self.points@[k], offset),
                out@ == self.points@.take(i as int).map_values(|p: Point| translated_spec(p, offset)),
            decreases self.points@.len() - i,
        {
            out.push(self.points[i].translated(offset));
            proof {
                assert(self.points@.take(i + 1) =~= self.points@.take(i as int).push(self.points@[i as int]));
                assert(out@ =~= self.points@.take(i + 1).map_values(|p: Point| translated_spec(p, offset)));
            }
            i = i + 1;
        }
        proof {
            assert(self.points@.take(i as int) =~= self.points@);
        }
        out
    }
}

/// Four quarter turns bring every point back where it was.
pub proof fn lemma_four_rotations(s: Seq<Point>)
    requires
        forall|i: int| 0 <= i < s.len() ==> negatable(#[trigger] s[i]),
    ensures
        rotate_all(rotate_all(rotate_all(rotate_all(s)))) == s,
{
    assert(rotate_all(rotate_all(rotate_all(rotate_all(s)))) =~= s);
}

/// Mirroring twice is the identity.
pub proof fn lemma_two_reflections(s: Seq<Point>)
    requires
        forall|i: int| 0 <= i < s.len() ==> negatable(#[trigger] s[i]),
    ensures
        reflect_all(reflect_all(s)) == s,
{
    assert(reflect_all(reflect_all(s)) =~= s);
}

/// The points `(x0, y)`, `(x0 + 1, y)`, ..., `(x1, y)`.
pub open spec fn row_cells(x0: int, x1: int, y: int) -> Seq<Point> {
    Seq::new((x1 - x0 + 1) as nat, |k: int| Point { x: (x0 + k) as i32, y: y as i32 })
}

/// The points of `[x0, x1] x [y0, y1]`, row by row from `y0` up, each row from `x0` rightwards.
pub open spec fn rect_cells(x0: int, x1: int, y0: int, y1: int) -> Seq<Point>
    decreases y1 - y0 + 1,
{
    if y1 < y0 {
        Seq::empty()
    } else {
        rect_cells(x0, x1, y0, y1 - 1) + row_cells(x0, x1, y1)
    }
}

/// An inclusive axis-aligned rectangle of lattice points.
#[derive(Clone, Copy)]
pub struct AABB {
    min: Point,
    max: Point,
}

impl AABB {
    #[verifier::type_invariant]
    spec fn ordered(self) -> bool {
        self.min.x <= self.max.x && self.min.y <= self.max.y
    }

    /// The lower-left corner.
    pub closed spec fn lo(self) -> Point {
        self.min
    }

    /// The upper-right corner.
    pub closed spec fn hi(self) -> Point {
        self.max
    }

    /// The points of the rectangle, in the order `points` gives them.
    pub open spec fn cells(self) -> Seq<Point> {
        rect_cells(self.lo().x as int, self.hi().x as int, self.lo().y as int, self.hi().y as int)
    }

    pub fn new(min: Point, max: Point) -> (r: AABB)
        requires
            min.x <= max.x && min.y <= max.y,
        ensures
            r.lo() == min,
            r.hi() == max,
    {
        AABB { min, max }
    }

    /// Every point of the rectangle, row by row from the bottom, each row left to right.
    pub fn points(&self) -> (r: Vec<Point>)
        ensures
            r@ == self.cells(),
    {
        proof {
            use_type_invariant(self);
        }
        let x0 = self.min.x as i64;
        let x1 = self.max.x as i64;
        let y0 = self.min.y as i64;
        let y1 = self.max.y as i64;
        let mut out: Vec<Point> = Vec::new();
        let mut y: i64 = y0;
        while y <= y1
            invariant
                x0 == self.min.x,
                x1 == self.max.x,
                y0 == self.min.y,
                y1 == self.max.y,
                y0 <= y <= y1 + 1,
                x0 <= x1,
                out@ == rect_cells(x0 as int, x1 as int, y0 as int, y - 1),
            decreases y1 + 1 - y,
        {
            let mut x: i64 = x0;
            while x <= x1
                invariant
                    x0 <= x <= x1 + 1,
                    x1 <= i32::MAX,
                    y0 <= y <= y1,
                    i32::MIN <= y0,
                    y1 <= i32::MAX,
                    i32::MIN <= x0,
                    out@ == rect_cells(x0 as int, x1 as int, y0 as int, y - 1) + row_cells(x0 as int, x - 1, y as int),
                decreases x1 + 1 - x,
            {
                out.push(Point { x: x as i32, y: y as i32 });
                proof {
                    assert(row_cells(x0 as int, x as int, y as int) =~= row_cells(x0 as int, x - 1, y as int).push(
                        Point { x: x as i32, y: y as i32 },
                    ));
                    assert(out@ =~= rect_cells(x0 as int, x1 as int, y0 as int, y - 1) + row_cells(x0 as int, x as int, y as int));
                }
                x = x + 1;
            }
            y = y + 1;
        }
        out
    }
}

/// The points of all regions, region after region.
pub open spec fn board_cells(aabbs: Seq<AABB>) -> Seq<Point>
    decreases aabbs.len(),
{
    if aabbs.len() == 0 {
        Seq::empty()
    } else {
        board_cells(aabbs.drop_last()) + aabbs.last().cells()
    }
}

/// The single-bit mask of the cell at position `i`.
pub open spec fn cell_mask(i: int) -> u64 {
    1u64 << (i as u64)
}

/// Position of `p` among `cells` (meaningful when `p` occurs there).
pub open spec fn cell_index(cells: Seq<Point>, p: Point) -> int {
    cells.index_of(p)
}

/// The OR of the masks of `pts`, starting from no bits.
pub open spec fn mask_of(cells: Seq<Point>, pts: Seq<Point>) -> u64
    decreases pts.len(),
{
    if pts.len() == 0 {
        0
    } else {
        mask_of(cells, pts.drop_last()) | cell_mask(cell_index(cells, pts.last()))
    }
}

/// Every point of `pts` is a cell of the board.
pub open spec fn all_on_board(cells: Seq<Point>, pts: Seq<Point>) -> bool {
    forall|k: int| 0 <= k < pts.len() ==> cells.contains(#[trigger] pts[k])
}

/// What `encode` gives: absent for no points or a point off the board, else the OR of masks.
pub open spec fn encoding_of(cells: Seq<Point>, pts: Seq<Point>) -> Option<u64> {
    if pts.len() > 0 && all_on_board(cells, pts) {
        Some(mask_of(cells, pts))
    } else {
        None
    }
}

/// Board cells numbered in the order the regions list them; cell `i` is bit `i` of a mask.
pub struct EncodingBoard {
    aabbs: Vec<AABB>,
    cells: Vec<Point>,
}

impl View for EncodingBoard {
    type V = Seq<Point>;

    closed spec fn view(&self) -> Seq<Point> {
        self.cells@
    }
}

impl EncodingBoard {
    #[verifier::type_invariant]
    spec fn numbered(self) -> bool {
        &&& self.cells@ == board_cells(self.aabbs@)
        &&& self.cells@.len() <= 64
        &&& self.cells@.no_duplicates()
    }

    /// The regions the board was built from.
    pub closed spec fn regions(self) -> Seq<AABB> {
        self.aabbs@
    }

    /// Numbers the cells of `aabbs` 0, 1, 2, ... in region order. The regions must not
    /// share a point and must hold at most 64 points together.
    pub fn new(aabbs: Vec<AABB>) -> (r: EncodingBoard)
        requires
            board_cells(aabbs@).len() <= 64,
            board_cells(aabbs@).no_duplicates(),
        ensures
            r@ == board_cells(aabbs@),
            r.regions() == aabbs@,
    {
        let mut cells: Vec<Point> = Vec::new();
        let mut k: usize = 0;
        while k < aabbs.len()
            invariant
                k <= aabbs@.len(),
                cells@ == board_cells(aabbs@.take(k as int)),
            decreases aabbs@.len() - k,
        {
            let mut pts = aabbs[k].points();
            cells.append(&mut pts);
            proof {
                assert(aabbs@.take(k + 1).drop_last() =~= aabbs@.take(k as int));
            }
            k = k + 1;
        }
        proof {
            assert(aabbs@.take(k as int) =~= aabbs@);
        }
        EncodingBoard { aabbs, cells }
    }

    /// Every board point, region after region.
    pub fn points(&self) -> (r: Vec<Point>)
        ensures
            r@ == self@,
            r@ == board_cells(self.regions()),
            r@.len() <= 64,
            r@.no_duplicates(),
    {
        proof {
            use_type_invariant(self);
        }
        let mut out: Vec<Point> = Vec::new();
        let mut i: usize = 0;
        while i < self.cells.len()
            invariant
                i <= self.cells@.len(),
                out@ == self.cells@.take(i as int),
            decreases self.cells@.len() - i,
        {
            out.push(self.cells[i]);
            proof {
                assert(self.cells@.take(i + 1) =~= self.cells@.take(i as int).push(self.cells@[i as int]));
            }
            i = i + 1;
        }
        proof {
            assert(self.cells@.take(i as int) =~= self.cells@);
        }
        out
    }

    /// Position of `p` among the cells, if it is one.
    fn index_of(&self, p: Point) -> (r: Option<usize>)
        ensures
            match r {
                Some(i) => i < self@.len() && self@[i as int] == p,
                None => !self@.contains(p),
            },
    {
        let mut i: usize = 0;
        while i < self.cells.len()
            invariant
                i <= self.cells@.len(),
                forall|k: int| 0 <= k < i ==> self.cells@[k] != p,
            decreases self.cells@.len() - i,
        {
            if self.cells[i] == p {
                return Some(i);
            }
            i = i + 1;
        }
        None
    }

    /// The OR of the masks of `points`; absent when `points` is empty or holds a point that
    /// is not on the board.
    pub fn encode(&self, points: &[Point]) -> (r: Option<u64>)
        ensures
            r == encoding_of(self@, points@),
    {
        proof {
            use_type_invariant(self);
        }
        if points.len() == 0 {
            return None;
        }
        let mut acc: u64 = 0;
        let mut k: usize = 0;
        while k < points.len()
            invariant
                k <= points@.len(),
                self.cells@.len() <= 64,
                self.cells@.no_duplicates(),
                all_on_board(self@, points@.take(k as int)),
                acc == mask_of(self@, points@.take(k as int)),
            decreases points@.len() - k,
        {
            match self.index_of(points[k]) {
                None => {
                    proof {
                        assert(!all_on_board(self@, points@));
                    }
                    return None;
                },
                Some(i) => {
                    let ghost taken = points@.take(k + 1);
                    proof {
                        assert(taken.drop_last() =~= points@.take(k as int));
                        assert(cell_index(self@, points@[k as int]) == i as int) by {
                            assert(self@.contains(points@[k as int]));
                        }
                        assert forall|m: int| 0 <= m < taken.len() implies self@.contains(#[trigger] taken[m]) by {
                            if m < k {
                                assert(taken[m] == points@.take(k as int)[m]);
                            } else {
                                assert(self@[i as int] == taken[m]);
                            }
                        }
                    }
                    acc = acc | (1u64 << (i as u64));
                },
            }
            k = k + 1;
        }
        proof {
            assert(points@.take(k as int) =~= points@);
        }
        Some(acc)
    }
}

/// `p` comes before `q` when reading the grid: higher rows first, then left to right.
pub open spec fn reads_before(p: Point, q: Point) -> bool {
    p.y > q.y || (p.y == q.y && p.x < q.x)
}

fn precedes(p: Point, q: Point) -> (r: bool)
    ensures
        r == reads_before(p, q),
{
    p.y > q.y || (p.y == q.y && p.x < q.x)
}

/// Indices of `cells` in reading order.
fn reading_order(cells: &Vec<Point>) -> (order: Vec<usize>)
    requires
        cells@.no_duplicates(),
    ensures
        order@.len() == cells@.len(),
        order@.no_duplicates(),
        forall|a: int| 0 <= a < order@.len() ==> #[trigger] order@[a] < cells@.len(),
        forall|i: usize| i < cells@.len() ==> #[trigger] order@.contains(i),
        forall|a: int, b: int|
            0 <= a < b < order@.len() ==> reads_before(cells@[#[trigger] order@[a] as int], cells@[#[trigger] order@[b] as int]),
{
    let mut order: Vec<usize> = Vec::new();
    let mut i: usize = 0;
    while i < cells.len()
        invariant
            i <= cells@.len(),
            cells@.no_duplicates(),
            order@.len() == i,
            order@.no_duplicates(),
            forall|a: int| 0 <= a < order@.len() ==> #[trigger] order@[a] < i,
            forall|m: usize| m < i ==> #[trigger] order@.contains(m),
            forall|a: int, b: int|
                0 <= a < b < order@.len() ==> reads_before(cells@[#[trigger] order@[a] as int], cells@[#[trigger] order@[b] as int]),
        decreases cells@.len() - i,
    {
        let p = cells[i];
        let mut j: usize = 0;
        while j < order.len() && precedes(cells[order[j]], p)
            invariant
                j <= order@.len(),
                p == cells@[i as int],
                i < cells@.len(),
                forall|a: int| 0 <= a < order@.len() ==> #[trigger] order@[a] < i,
                forall|a: int| 0 <= a < j ==> reads_before(cells@[#[trigger] order@[a] as int], p),
            decreases order@.len() - j,
        {
            j = j + 1;
        }
        let ghost old_order = order@;
        proof {
            if j < old_order.len() {
                assert(cells@[old_order[j as int] as int] != p);
            }
        }
        order.insert(j, i);
        proof {
            assert(order@ == old_order.insert(j as int, i));
            assert forall|a: int, b: int| 0 <= a < b < order@.len() implies reads_before(
                cells@[#[trigger] order@[a] as int],
                cells@[#[trigger] order@[b] as int],
            ) by {
                if b < j {
                } else if b == j {
                } else if a < j {
                    assert(reads_before(cells@[old_order[a] as int], p));
                    if j < old_order.len() {
                        assert(reads_before(p, cells@[old_order[j as int] as int]));
                    }
                } else if a == j {
                    if j + 1 < b {
                        assert(reads_before(cells@[old_order[j as int] as int], cells@[old_order[b - 1] as int]));
                    }
                } else {
                    assert(reads_before(cells@[old_order[a - 1] as int], cells@[old_order[b - 1] as int]));
                }
            }
            assert forall|a: int, b: int| 0 <= a < order@.len() && 0 <= b < order@.len() && a != b implies order@[a] != order@[b] by {
                if a != j && b != j {
                    let a1 = if a < j { a } else { a - 1 };
                    let b1 = if b < j { b } else { b - 1 };
                    assert(old_order[a1] != old_order[b1]);
                }
            }
            assert forall|m: usize| m < i + 1 implies #[trigger] order@.contains(m) by {
                if m < i {
                    assert(old_order.contains(m));
                    let a = choose|a: int| 0 <= a < old_order.len() && old_order[a] == m;
                    if a < j {
                        assert(order@[a] == m);
                    } else {
                        assert(order@[a + 1] == m);
                    }
                } else {
                    assert(order@[j as int] == i);
                }
            }
        }
        i = i + 1;
    }
    order
}

/// The state of one grid cell.
#[derive(Clone, Copy, PartialEq, Eq, Structural, Debug)]
pub enum Square {
    Covered { tile_id: u8 },
    Uncovered,
    Unknown,
}

/// What `decode` paints for a label: the piece, or pre-occupied when there is none.
pub open spec fn paint(tile_id: Option<u8>) -> Square {
    match tile_id {
        Some(id) => Square::Covered { tile_id: id },
        None => Square::Uncovered,
    }
}

/// Bit `i` of `m` is set.
pub open spec fn has_bit(m: u64, i: int) -> bool {
    m & cell_mask(i) != 0
}

/// The board laid out as rows of squares, top row first, each row left to right.
pub struct DecodingBoard {
    decoding: Vec<(usize, usize)>,
    layout: Vec<Vec<Point>>,
    rows: Vec<Vec<Square>>,
}

impl DecodingBoard {
    /// Number of board cells, i.e. of mask bits in use.
    pub closed spec fn cell_count(self) -> nat {
        self.decoding@.len()
    }

    /// Grid position (row, column) of the cell of bit `i`.
    pub closed spec fn position(self, i: int) -> (usize, usize) {
        self.decoding@[i]
    }

    pub closed spec fn row_count(self) -> nat {
        self.rows@.len()
    }

    pub closed spec fn row_len(self, r: int) -> nat {
        self.rows@[r]@.len()
    }

    /// The state of the square at row `r`, column `c`.
    pub closed spec fn square_at(self, r: int, c: int) -> Square {
        self.rows@[r]@[c]
    }

    /// The board point shown at row `r`, column `c`.
    pub closed spec fn point_at(self, r: int, c: int) -> Point {
        self.layout@[r]@[c]
    }

    /// `(r, c)` lies on the grid.
    pub open spec fn on_grid(self, r: int, c: int) -> bool {
        0 <= r < self.row_count() && 0 <= c < self.row_len(r)
    }

    /// Layout and squares have one shape, and each bit's position lies on the grid.
    pub closed spec fn wf(self) -> bool {
        &&& self.cell_count() <= 64
        &&& self.layout@.len() == self.rows@.len()
        &&& forall|r: int| 0 <= r < self.rows@.len() ==> #[trigger] self.layout@[r]@.len() == self.rows@[r]@.len()
        &&& forall|i: int|
            0 <= i < self.cell_count() ==> self.on_grid(#[trigger] self.position(i).0 as int, self.position(i).1 as int)
    }

    /// Each cell of `cells` is shown at the position of its bit, and every square shows a cell.
    pub open spec fn shows(self, cells: Seq<Point>) -> bool {
        &&& self.wf()
        &&& self.cell_count() == cells.len()
        &&& forall|i: int|
            0 <= i < cells.len() ==> self.point_at(#[trigger] self.position(i).0 as int, self.position(i).1 as int) == cells[i]
        &&& forall|r: int, c: int| self.on_grid(r, c) ==> cells.contains(#[trigger] self.point_at(r, c))
    }

    /// Rows run top to bottom, each holding one `y`, with `x` increasing along it.
    pub open spec fn in_reading_order(self) -> bool {
        &&& forall|r: int, c1: int, c2: int|
            self.on_grid(r, c1) && self.on_grid(r, c2) ==> (#[trigger] self.point_at(r, c1)).y == (#[trigger] self.point_at(r, c2)).y
        &&& forall|r: int, c1: int, c2: int|
            self.on_grid(r, c1) && self.on_grid(r, c2) && c1 < c2 ==> (#[trigger] self.point_at(r, c1)).x < (#[trigger] self.point_at(r, c2)).x
        &&& forall|r1: int, r2: int, c1: int, c2: int|
            self.on_grid(r1, c1) && self.on_grid(r2, c2) && r1 < r2 ==> (#[trigger] self.point_at(r1, c1)).y > (#[trigger] self.point_at(r2, c2)).y
    }
}

/// `p` stands at `pos`, either in a finished row of `layout` or in the row being filled.
spec fn placed(layout: Seq<Vec<Point>>, cur: Seq<Point>, pos: (usize, usize), p: Point) -> bool {
    ||| (pos.0 < layout.len() && pos.1 < layout[pos.0 as int]@.len() && layout[pos.0 as int]@[pos.1 as int] == p)
    ||| (pos.0 == layout.len() && pos.1 < cur.len() && cur[pos.1 as int] == p)
}

/// Rows of `layout`, followed by `cur`, are in reading order.
spec fn rows_ordered(layout: Seq<Vec<Point>>, cur: Seq<Point>) -> bool {
    &&& forall|r: int, c1: int, c2: int|
        0 <= r < layout.len() && 0 <= c1 < layout[r]@.len() && 0 <= c2 < layout[r]@.len()
            ==> (#[trigger] layout[r]@[c1]).y == (#[trigger] layout[r]@[c2]).y
    &&& forall|r: int, c1: int, c2: int|
        0 <= r < layout.len() && 0 <= c1 < c2 < layout[r]@.len()
            ==> (#[trigger] layout[r]@[c1]).x < (#[trigger] layout[r]@[c2]).x
    &&& forall|r1: int, r2: int, c1: int, c2: int|
        0 <= r1 < r2 < layout.len() && 0 <= c1 < layout[r1]@.len() && 0 <= c2 < layout[r2]@.len()
            ==> (#[trigger] layout[r1]@[c1]).y > (#[trigger] layout[r2]@[c2]).y
    &&& forall|c1: int, c2: int| 0 <= c1 < cur.len() && 0 <= c2 < cur.len() ==> (#[trigger] cur[c1]).y == (#[trigger] cur[c2]).y
    &&& forall|c1: int, c2: int| 0 <= c1 < c2 < cur.len() ==> (#[trigger] cur[c1]).x < (#[trigger] cur[c2]).x
    &&& forall|r: int, c1: int, c2: int|
        0 <= r < layout.len() && 0 <= c1 < layout[r]@.len() && 0 <= c2 < cur.len()
            ==> (#[trigger] layout[r]@[c1]).y > (#[trigger] cur[c2]).y
}

impl DecodingBoard {
    /// Lays the cells of `board` out in rows, top row first, each row left to right; every
    /// square starts `Unknown`.
    #[verifier::rlimit(80)]
    pub fn from(board: EncodingBoard) -> (r: DecodingBoard)
        ensures
            r.wf(),
            r.shows(board@),
            r.in_reading_order(),
            board@.len() > 0 ==> forall|rr: int| 0 <= rr < r.row_count() ==> #[trigger] r.row_len(rr) > 0,
            forall|rr: int, c: int| r.on_grid(rr, c) ==> r.square_at(rr, c) == Square::Unknown,
    {
        proof {
            use_type_invariant(&board);
        }
        let cells = board.points();
        let n = cells.len();
        let order = reading_order(&cells);
        let mut decoding: Vec<(usize, usize)> = vec![(0, 0); n];
        let mut layout: Vec<Vec<Point>> = Vec::new();
        let mut rows: Vec<Vec<Square>> = Vec::new();
        let mut cur: Vec<Point> = Vec::new();
        let mut cur_sq: Vec<Square> = Vec::new();
        let mut k: usize = 0;
        while k < n
            invariant
                n == cells@.len(),
                n <= 64,
                cells@.no_duplicates(),
                order@.len() == n,
                order@.no_duplicates(),
                forall|a: int| 0 <= a < order@.len() ==> #[trigger] order@[a] < n,
                forall|a: int, b: int|
                    0 <= a < b < order@.len() ==> reads_before(cells@[#[trigger] order@[a] as int], cells@[#[trigger] order@[b] as int]),
                k <= n,
                decoding@.len() == n,
                layout@.len() == rows@.len(),
                forall|r: int| 0 <= r < rows@.len() ==> #[trigger] layout@[r]@.len() == rows@[r]@.len(),
                forall|r: int, c: int| 0 <= r < rows@.len() && 0 <= c < rows@[r]@.len() ==> #[trigger] rows@[r]@[c] == Square::Unknown,
                cur@.len() == cur_sq@.len(),
                forall|c: int| 0 <= c < cur_sq@.len() ==> #[trigger] cur_sq@[c] == Square::Unknown,
                k > 0 ==> cur@.len() > 0 && cur@.last() == cells@[order@[k - 1] as int],
                k == 0 ==> cur@.len() == 0 && layout@.len() == 0,
                forall|r: int| 0 <= r < layout@.len() ==> #[trigger] layout@[r]@.len() > 0,
                forall|a: int| 0 <= a < k ==> placed(layout@, cur@, decoding@[#[trigger] order@[a] as int], cells@[order@[a] as int]),
                forall|r: int, c: int| 0 <= r < layout@.len() && 0 <= c < layout@[r]@.len() ==> cells@.contains(#[trigger] layout@[r]@[c]),
                forall|c: int| 0 <= c < cur@.len() ==> cells@.contains(#[trigger] cur@[c]),
                rows_ordered(layout@, cur@),
            decreases n - k,
        {
            let p = cells[order[k]];
            let ghost prev_layout = layout@;
            let ghost prev_cur = cur@;
            if cur.len() > 0 && cur[0].y != p.y {
                proof {
                    assert(reads_before(cells@[order@[k - 1] as int], cells@[order@[k as int] as int]));
                }
                layout.push(cur);
                rows.push(cur_sq);
                cur = Vec::new();
                cur_sq = Vec::new();
                proof {
                    assert forall|a: int| 0 <= a < k implies placed(layout@, cur@, decoding@[#[trigger] order@[a] as int], cells@[order@[a] as int]) by {
                        assert(placed(prev_layout, prev_cur, decoding@[order@[a] as int], cells@[order@[a] as int]));
                    }
                    assert forall|r1: int, r2: int, c1: int, c2: int|
                        0 <= r1 < r2 < layout@.len() && 0 <= c1 < layout@[r1]@.len() && 0 <= c2 < layout@[r2]@.len()
                        implies (#[trigger] layout@[r1]@[c1]).y > (#[trigger] layout@[r2]@[c2]).y by {
                        if r2 == layout@.len() - 1 {
                            assert(prev_layout[r1]@[c1].y > prev_cur[c2].y);
                        }
                    }
                }
            } else {
                proof {
                    if k > 0 {
                        assert(reads_before(cells@[order@[k - 1] as int], cells@[order@[k as int] as int]));
                        assert(prev_cur[0].y == prev_cur[prev_cur.len() - 1].y);
                    }
                }
            }
            let ghost mid_layout = layout@;
            let ghost mid_cur = cur@;
            decoding.set(order[k], (layout.len(), cur.len()));
            cur.push(p);
            cur_sq.push(Square::Unknown);
            proof {
                assert forall|a: int| 0 <= a < k + 1 implies placed(layout@, cur@, decoding@[#[trigger] order@[a] as int], cells@[order@[a] as int]) by {
                    if a < k {
                        assert(order@[a] != order@[k as int]);
                        assert(placed(mid_layout, mid_cur, decoding@[order@[a] as int], cells@[order@[a] as int]));
                    }
                }
                assert(cells@.contains(p));
                assert forall|c: int| 0 <= c < cur@.len() implies cells@.contains(#[trigger] cur@[c]) by {
                    if c < mid_cur.len() {
                        assert(cur@[c] == mid_cur[c]);
                    }
                }
                assert forall|c1: int, c2: int| 0 <= c1 < cur@.len() && 0 <= c2 < cur@.len() implies (#[trigger] cur@[c1]).y == (#[trigger] cur@[c2]).y by {
                    if mid_cur.len() > 0 {
                        assert(mid_cur[0].y == p.y);
                        if c1 < mid_cur.len() {
                            assert(mid_cur[c1].y == mid_cur[0].y);
                        }
                        if c2 < mid_cur.len() {
                            assert(mid_cur[c2].y == mid_cur[0].y);
                        }
                    }
                }
                assert forall|c1: int, c2: int| 0 <= c1 < c2 < cur@.len() implies (#[trigger] cur@[c1]).x < (#[trigger] cur@[c2]).x by {
                    if c2 == mid_cur.len() {
                        let last = mid_cur.len() - 1;
                        assert(mid_cur[last] == cells@[order@[k - 1] as int]);
                        assert(mid_cur[0].y == p.y);
                        assert(mid_cur[last].y == mid_cur[0].y);
                        if c1 < last {
                            assert(mid_cur[c1].x < mid_cur[last].x);
                        }
                    }
                }
                assert forall|r: int, c1: int, c2: int|
                    0 <= r < layout@.len() && 0 <= c1 < layout@[r]@.len() && 0 <= c2 < cur@.len()
                    implies (#[trigger] layout@[r]@[c1]).y > (#[trigger] cur@[c2]).y by {
                    if c2 == mid_cur.len() {
                        if mid_cur.len() > 0 {
                            assert(mid_cur[0].y == p.y);
                            assert(layout@[r]@[c1].y > mid_cur[0].y);
                        } else if k > 0 {
                            assert(reads_before(cells@[order@[k - 1] as int], p));
                            let pl = prev_layout.len() as int;
                            assert(layout@[pl]@ == prev_cur);
                            assert(prev_cur[prev_cur.len() - 1].y == prev_cur[0].y);
                            if r < pl {
                                assert(prev_layout[r]@[c1].y > prev_cur[0].y);
                            } else {
                                assert(prev_cur[c1].y == prev_cur[0].y);
                            }
                        }
                    } else {
                        assert(cur@[c2] == mid_cur[c2]);
                    }
                }
            }
            k = k + 1;
        }
        let ghost prev_layout = layout@;
        let ghost prev_cur = cur@;
        layout.push(cur);
        rows.push(cur_sq);
        let r = DecodingBoard { decoding, layout, rows };
        proof {
            if n > 0 {
                assert forall|rr: int| 0 <= rr < r.row_count() implies #[trigger] r.row_len(rr) > 0 by {
                    assert(layout@[rr]@.len() > 0);
                }
            }
            assert forall|a: int| 0 <= a < n implies placed(layout@, Seq::empty(), decoding@[#[trigger] order@[a] as int], cells@[order@[a] as int]) by {
                assert(placed(prev_layout, prev_cur, decoding@[order@[a] as int], cells@[order@[a] as int]));
            }
            assert forall|i: int| 0 <= i < r.cell_count() implies r.on_grid(#[trigger] r.position(i).0 as int, r.position(i).1 as int)
                && r.point_at(r.position(i).0 as int, r.position(i).1 as int) == cells@[i] by {
                assert(order@.contains(i as usize));
                let a = choose|a: int| 0 <= a < order@.len() && order@[a] == i as usize;
                assert(placed(layout@, Seq::empty(), decoding@[order@[a] as int], cells@[order@[a] as int]));
            }
            assert forall|rr: int, c: int| r.on_grid(rr, c) implies cells@.contains(#[trigger] r.point_at(rr, c)) by {
                if rr == prev_layout.len() {
                    assert(cells@.contains(prev_cur[c]));
                }
            }
            assert forall|r1: int, r2: int, c1: int, c2: int|
                r.on_grid(r1, c1) && r.on_grid(r2, c2) && r1 < r2 implies (#[trigger] r.point_at(r1, c1)).y > (#[trigger] r.point_at(r2, c2)).y by {
                if r2 == prev_layout.len() {
                    assert(prev_layout[r1]@[c1].y > prev_cur[c2].y);
                }
            }
            assert forall|rr: int, c1: int, c2: int|
                r.on_grid(rr, c1) && r.on_grid(rr, c2) implies (#[trigger] r.point_at(rr, c1)).y == (#[trigger] r.point_at(rr, c2)).y by {
                if rr == prev_layout.len() {
                    assert(prev_cur[c1].y == prev_cur[c2].y);
                }
            }
            assert forall|rr: int, c1: int, c2: int|
                r.on_grid(rr, c1) && r.on_grid(rr, c2) && c1 < c2 implies (#[trigger] r.point_at(rr, c1)).x < (#[trigger] r.point_at(rr, c2)).x by {
                if rr == prev_layout.len() {
                    assert(prev_cur[c1].x < prev_cur[c2].x);
                }
            }
        }
        r
    }
}

impl DecodingBoard {
    /// Bit `i` is set in `enc`, and its cell sits at row `r`, column `c`.
    pub open spec fn paints(self, enc: u64, i: int, r: int, c: int) -> bool {
        &&& 0 <= i < self.cell_count()
        &&& has_bit(enc, i)
        &&& self.position(i).0 as int == r
        &&& self.position(i).1 as int == c
    }

    /// Some bit below `upto` of `enc` names the square at row `r`, column `c`.
    pub open spec fn painted_below(self, enc: u64, upto: int, r: int, c: int) -> bool {
        exists|i: int| 0 <= i < upto && #[trigger] self.paints(enc, i, r, c)
    }

    /// Some bit of `enc` names the square at row `r`, column `c`.
    pub open spec fn painted(self, enc: u64, r: int, c: int) -> bool {
        self.painted_below(enc, 64, r, c)
    }

    /// Sets each square whose bit is set in `enc` to `Covered` with `tile_id`, or to
    /// `Uncovered` when `tile_id` is absent. Every set bit must belong to this board.
    pub fn decode(&mut self, enc: u64, tile_id: Option<u8>)
        requires
            old(self).wf(),
            forall|i: int| 0 <= i < 64 && #[trigger] has_bit(enc, i) ==> i < old(self).cell_count(),
        ensures
            final(self).wf(),
            final(self).cell_count() == old(self).cell_count(),
            final(self).row_count() == old(self).row_count(),
            forall|i: int| 0 <= i < old(self).cell_count() ==> #[trigger] final(self).position(i) == old(self).position(i),
            forall|r: int| 0 <= r < old(self).row_count() ==> #[trigger] final(self).row_len(r) == old(self).row_len(r),
            forall|r: int, c: int| old(self).on_grid(r, c) ==> #[trigger] final(self).point_at(r, c) == old(self).point_at(r, c),
            forall|r: int, c: int|
                old(self).on_grid(r, c) ==> #[trigger] final(self).square_at(r, c) == if old(self).painted(enc, r, c) {
                    paint(tile_id)
                } else {
                    old(self).square_at(r, c)
                },
            forall|cells: Seq<Point>| #[trigger] old(self).shows(cells) ==> final(self).shows(cells),
            old(self).in_reading_order() ==> final(self).in_reading_order(),
    {
        let sq = match tile_id {
            Some(id) => Square::Covered { tile_id: id },
            None => Square::Uncovered,
        };
        let mut i: u64 = 0;
        while i < 64
            invariant
                i <= 64,
                sq == paint(tile_id),
                forall|j: int| 0 <= j < 64 && #[trigger] has_bit(enc, j) ==> j < old(self).cell_count(),
                old(self).wf(),
                self.decoding@ == old(self).decoding@,
                self.layout@ == old(self).layout@,
                self.rows@.len() == old(self).rows@.len(),
                forall|r: int| 0 <= r < self.rows@.len() ==> #[trigger] self.rows@[r]@.len() == old(self).rows@[r]@.len(),
                forall|r: int, c: int|
                    old(self).on_grid(r, c) ==> #[trigger] self.rows@[r]@[c] == if old(self).painted_below(enc, i as int, r, c) {
                        sq
                    } else {
                        old(self).square_at(r, c)
                    },
            decreases 64 - i,
        {
            let ghost before = self.rows@;
            if enc & (1u64 << i) != 0 {
                proof {
                    assert(has_bit(enc, i as int));
                }
                let (r, c) = self.decoding[i as usize];
                proof {
                    assert(old(self).on_grid(old(self).position(i as int).0 as int, old(self).position(i as int).1 as int));
                }
                let mut row = self.rows.remove(r);
                row.set(c, sq);
                self.rows.insert(r, row);
                proof {
                    assert(old(self).position(i as int) == (r, c));
                    assert(self.rows@ =~= before.update(r as int, row));
                    assert forall|rr: int, cc: int| old(self).on_grid(rr, cc) implies #[trigger] self.rows@[rr]@[cc] == if old(
                        self,
                    ).painted_below(enc, i + 1, rr, cc) {
                        sq
                    } else {
                        old(self).square_at(rr, cc)
                    } by {
                        if rr == r as int && cc == c as int {
                            assert(old(self).paints(enc, i as int, rr, cc));
                        } else {
                            if old(self).painted_below(enc, i + 1, rr, cc) {
                                let j = choose|j: int| 0 <= j < i + 1 && #[trigger] old(self).paints(enc, j, rr, cc);
                                assert(j != i as int);
                            }
                        }
                    }
                }
            } else {
                proof {
                    assert(!has_bit(enc, i as int));
                    assert forall|rr: int, cc: int| old(self).on_grid(rr, cc) implies #[trigger] self.rows@[rr]@[cc] == if old(
                        self,
                    ).painted_below(enc, i + 1, rr, cc) {
                        sq
                    } else {
                        old(self).square_at(rr, cc)
                    } by {
                        if old(self).painted_below(enc, i + 1, rr, cc) {
                            let j = choose|j: int| 0 <= j < i + 1 && #[trigger] old(self).paints(enc, j, rr, cc);
                            assert(j != i as int);
                        }
                    }
                }
            }
            i = i + 1;
        }
        proof {
            assert forall|rr: int, cc: int| self.on_grid(rr, cc) == old(self).on_grid(rr, cc) by {
                if 0 <= rr < self.rows@.len() {
                    assert(self.rows@[rr]@.len() == old(self).rows@[rr]@.len());
                }
            }
            assert forall|rr: int| 0 <= rr < self.rows@.len() implies #[trigger] self.layout@[rr]@.len() == self.rows@[rr]@.len() by {
                assert(old(self).layout@[rr]@.len() == old(self).rows@[rr]@.len());
                assert(self.rows@[rr]@.len() == old(self).rows@[rr]@.len());
            }
            assert forall|j: int| 0 <= j < self.cell_count() implies self.on_grid(
                #[trigger] self.position(j).0 as int,
                self.position(j).1 as int,
            ) by {
                assert(old(self).on_grid(old(self).position(j).0 as int, old(self).position(j).1 as int));
                assert(self.on_grid(old(self).position(j).0 as int, old(self).position(j).1 as int) == old(self).on_grid(old(self).position(j).0 as int, old(self).position(j).1 as int));
            }
            assert(self.wf());
            assert forall|cells: Seq<Point>| #[trigger] old(self).shows(cells) implies self.shows(cells) by {
                assert forall|rr: int, cc: int| self.on_grid(rr, cc) implies cells.contains(#[trigger] self.point_at(rr, cc)) by {
                    assert(old(self).on_grid(rr, cc));
                    assert(cells.contains(old(self).point_at(rr, cc)));
                }
                assert forall|j: int| 0 <= j < cells.len() implies self.point_at(
                    #[trigger] self.position(j).0 as int,
                    self.position(j).1 as int,
                ) == cells[j] by {
                    assert(old(self).point_at(old(self).position(j).0 as int, old(self).position(j).1 as int) == cells[j]);
                }
            }
            if old(self).in_reading_order() {
                assert forall|r: int, c1: int, c2: int|
                    self.on_grid(r, c1) && self.on_grid(r, c2) implies (#[trigger] self.point_at(r, c1)).y == (#[trigger] self.point_at(r, c2)).y by {
                    assert(old(self).on_grid(r, c1) && old(self).on_grid(r, c2));
                    assert(old(self).point_at(r, c1).y == old(self).point_at(r, c2).y);
                }
                assert forall|r: int, c1: int, c2: int|
                    self.on_grid(r, c1) && self.on_grid(r, c2) && c1 < c2 implies (#[trigger] self.point_at(r, c1)).x < (#[trigger] self.point_at(r, c2)).x by {
                    assert(old(self).on_grid(r, c1) && old(self).on_grid(r, c2));
                    assert(old(self).point_at(r, c1).x < old(self).point_at(r, c2).x);
                }
                assert forall|r1: int, r2: int, c1: int, c2: int|
                    self.on_grid(r1, c1) && self.on_grid(r2, c2) && r1 < r2 implies (#[trigger] self.point_at(r1, c1)).y > (#[trigger] self.point_at(r2, c2)).y by {
                    assert(old(self).on_grid(r1, c1) && old(self).on_grid(r2, c2));
                    assert(old(self).point_at(r1, c1).y > old(self).point_at(r2, c2).y);
                }
            }
        }
    }
}

impl DecodingBoard {
    /// Number of rows.
    pub fn height(&self) -> (r: usize)
        ensures
            r == self.row_count(),
    {
        self.rows.len()
    }

    /// Number of squares in row `r`.
    pub fn width(&self, r: usize) -> (w: usize)
        requires
            r < self.row_count(),
        ensures
            w == self.row_len(r as int),
    {
        self.rows[r].len()
    }

    /// The state of the square at row `r`, column `c`.
    pub fn square(&self, r: usize, c: usize) -> (s: Square)
        requires
            self.on_grid(r as int, c as int),
        ensures
            s == self.square_at(r as int, c as int),
    {
        self.rows[r][c]
    }

    /// The board point shown at row `r`, column `c`.
    pub fn point(&self, r: usize, c: usize) -> (p: Point)
        requires
            self.wf(),
            self.on_grid(r as int, c as int),
        ensures
            p == self.point_at(r as int, c as int),
    {
        self.layout[r][c]
    }

    /// Row and column of the cell of bit `i`.
    pub fn location(&self, i: usize) -> (pos: (usize, usize))
        requires
            i < self.cell_count(),
        ensures
            pos == self.position(i as int),
    {
        self.decoding[i]
    }
}

/// Number of points of `[x0, x1] x [y0, y1]`.
pub open spec fn rect_size(x0: int, x1: int, y0: int, y1: int) -> int {
    (x1 - x0 + 1) * (y1 - y0 + 1)
}

/// Number of points of all regions together.
pub open spec fn total_size(aabbs: Seq<AABB>) -> int
    decreases aabbs.len(),
{
    if aabbs.len() == 0 {
        0
    } else {
        total_size(aabbs.drop_last()) + rect_size(
            aabbs.last().lo().x as int,
            aabbs.last().hi().x as int,
            aabbs.last().lo().y as int,
            aabbs.last().hi().y as int,
        )
    }
}

proof fn lemma_rect_len(x0: int, x1: int, y0: int, y1: int)
    requires
        x0 <= x1 + 1,
        y0 <= y1 + 1,
    ensures
        rect_cells(x0, x1, y0, y1).len() == rect_size(x0, x1, y0, y1),
    decreases y1 - y0 + 1,
{
    if y1 >= y0 {
        lemma_rect_len(x0, x1, y0, y1 - 1);
        assert(row_cells(x0, x1, y1).len() == x1 - x0 + 1);
        assert((x1 - x0 + 1) * (y1 - 1 - y0 + 1) + (x1 - x0 + 1) == (x1 - x0 + 1) * (y1 - y0 + 1)) by (nonlinear_arith);
    } else {
        assert((x1 - x0 + 1) * (y1 - y0 + 1) == 0) by (nonlinear_arith)
            requires
                y1 - y0 + 1 == 0,
        ;
    }
}

proof fn lemma_board_len(aabbs: Seq<AABB>)
    requires
        forall|k: int| 0 <= k < aabbs.len() ==> (#[trigger] aabbs[k]).lo().x <= aabbs[k].hi().x && aabbs[k].lo().y <= aabbs[k].hi().y,
    ensures
        board_cells(aabbs).len() == total_size(aabbs),
    decreases aabbs.len(),
{
    if aabbs.len() > 0 {
        let a = aabbs.last();
        assert(a == aabbs[aabbs.len() - 1]);
        lemma_board_len(aabbs.drop_last());
        lemma_rect_len(a.lo().x as int, a.hi().x as int, a.lo().y as int, a.hi().y as int);
    }
}

/// A single-bit mask has bit `j` exactly at its own position.
pub proof fn lemma_single_bit(i: int, j: int)
    requires
        0 <= i < 64,
        0 <= j < 64,
    ensures
        has_bit(cell_mask(i), j) <==> i == j,
{
    let a = i as u64;
    let b = j as u64;
    assert((1u64 << a) & (1u64 << b) != 0 <==> a == b) by (bit_vector)
        requires
            a < 64,
            b < 64,
    ;
}

/// The mask of one point of the board is the single bit of its cell.
pub proof fn lemma_encode_single(cells: Seq<Point>, p: Point)
    requires
        cells.contains(p),
    ensures
        encoding_of(cells, seq![p]) == Some(cell_mask(cell_index(cells, p))),
{
    let s = seq![p];
    assert(all_on_board(cells, s));
    assert(s.drop_last() =~= Seq::<Point>::empty());
    assert(s.last() == p);
    assert(mask_of(cells, s.drop_last()) == 0);
    let m = cell_mask(cell_index(cells, p));
    assert(0u64 | m == m) by (bit_vector);
    assert(mask_of(cells, s) == m);
}

/// Bit numbering is a bijection: a board built from regions has as many cells as the regions
/// hold points, the mask of each single cell is its own bit, and different cells have
/// different masks.
pub proof fn lemma_encoding_bijective(aabbs: Seq<AABB>)
    requires
        forall|k: int| 0 <= k < aabbs.len() ==> (#[trigger] aabbs[k]).lo().x <= aabbs[k].hi().x && aabbs[k].lo().y <= aabbs[k].hi().y,
        board_cells(aabbs).len() <= 64,
        board_cells(aabbs).no_duplicates(),
    ensures
        board_cells(aabbs).len() == total_size(aabbs),
        forall|i: int|
            0 <= i < board_cells(aabbs).len() ==> encoding_of(board_cells(aabbs), seq![#[trigger] board_cells(aabbs)[i]])
                == Some(cell_mask(i)),
        forall|i: int, j: int| 0 <= i < board_cells(aabbs).len() && 0 <= j < 64 ==> (#[trigger] has_bit(cell_mask(i), j) <==> i == j),
        forall|i: int, j: int| 0 <= i < j < board_cells(aabbs).len() ==> #[trigger] cell_mask(i) != #[trigger] cell_mask(j),
{
    let cells = board_cells(aabbs);
    lemma_board_len(aabbs);
    assert forall|i: int| 0 <= i < cells.len() implies encoding_of(cells, seq![#[trigger] cells[i]]) == Some(cell_mask(i)) by {
        assert(cells.contains(cells[i]));
        lemma_encode_single(cells, cells[i]);
        assert(cell_index(cells, cells[i]) == i);
    }
    assert forall|i: int, j: int| 0 <= i < cells.len() && 0 <= j < 64 implies (#[trigger] has_bit(cell_mask(i), j) <==> i == j) by {
        lemma_single_bit(i, j);
    }
    assert forall|i: int, j: int| 0 <= i < j < cells.len() implies #[trigger] cell_mask(i) != #[trigger] cell_mask(j) by {
        lemma_single_bit(i, j);
        lemma_single_bit(j, j);
    }
}

/// Encoding yields nothing for no points, and nothing when a point is off the board.
pub proof fn lemma_encode_absent(cells: Seq<Point>, pts: Seq<Point>)
    ensures
        pts.len() == 0 ==> encoding_of(cells, pts) is None,
        (exists|k: int| 0 <= k < pts.len() && !cells.contains(#[trigger] pts[k])) ==> encoding_of(cells, pts) is None,
{
}

/// Round trip: the mask of a board point `p` names exactly one square of the grid, and that
/// square shows `p` again, whose mask is the same bit.
pub proof fn lemma_round_trip(d: DecodingBoard, cells: Seq<Point>, p: Point)
    requires
        d.shows(cells),
        cells.no_duplicates(),
        cells.contains(p),
    ensures
        encoding_of(cells, seq![p]) == Some(cell_mask(cell_index(cells, p))),
        d.on_grid(d.position(cell_index(cells, p)).0 as int, d.position(cell_index(cells, p)).1 as int),
        forall|r: int, c: int|
            d.painted(cell_mask(cell_index(cells, p)), r, c) <==> (d.position(cell_index(cells, p)).0 == r && d.position(
                cell_index(cells, p),
            ).1 == c),
        d.point_at(d.position(cell_index(cells, p)).0 as int, d.position(cell_index(cells, p)).1 as int) == p,
{
    let i = cell_index(cells, p);
    lemma_encode_single(cells, p);
    let pos = d.position(i);
    assert(d.on_grid(pos.0 as int, pos.1 as int));
    assert forall|r: int, c: int|
        d.painted(cell_mask(i), r, c) <==> (d.position(i).0 == r && d.position(i).1 == c) by {
        if d.painted(cell_mask(i), r, c) {
            let j = choose|j: int| 0 <= j < 64 && #[trigger] d.paints(cell_mask(i), j, r, c);
            lemma_single_bit(i, j);
        }
        if d.position(i).0 == r && d.position(i).1 == c {
            lemma_single_bit(i, i);
            assert(d.paints(cell_mask(i), i, r, c));
        }
    }
}

/// Every square of the grid is the square of exactly one bit of the board, so decoding masks
/// that together hold all bits leaves no square as it was.
pub proof fn lemma_every_square_has_a_bit(d: DecodingBoard, cells: Seq<Point>, r: int, c: int)
    requires
        d.shows(cells),
        d.in_reading_order(),
        d.on_grid(r, c),
    ensures
        exists|i: int| 0 <= i < cells.len() && d.position(i).0 == r && d.position(i).1 == c,
        forall|enc: u64| has_bit(enc, cell_index(cells, d.point_at(r, c))) ==> #[trigger] d.painted(enc, r, c),
{
    let p = d.point_at(r, c);
    assert(cells.contains(p));
    let j = cell_index(cells, p);
    let r2 = d.position(j).0 as int;
    let c2 = d.position(j).1 as int;
    assert(d.on_grid(r2, c2));
    assert(d.point_at(r2, c2) == p);
    if r < r2 {
        assert(d.point_at(r, c).y > d.point_at(r2, c2).y);
    } else if r2 < r {
        assert(d.point_at(r2, c2).y > d.point_at(r, c).y);
    } else if c < c2 {
        assert(d.point_at(r, c).x < d.point_at(r2, c2).x);
    } else if c2 < c {
        assert(d.point_at(r2, c2).x < d.point_at(r, c).x);
    }
    assert forall|enc: u64| has_bit(enc, cell_index(cells, d.point_at(r, c))) implies #[trigger] d.painted(enc, r, c) by {
        assert(d.paints(enc, j, r, c));
    }
}

} // verus!
