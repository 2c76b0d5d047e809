use vstd::prelude::*;
use crate::entity::{
    encoding_of, lemma_four_rotations, reflect_all, rotate_all, translated_spec, EncodingBoard, Point, Tile,
};

verus! {

/// Coordinate bound that keeps every transform and translation inside `i32`.
pub open spec fn small(p: Point) -> bool {
    -0x4000_0000 < p.x < 0x4000_0000 && -0x4000_0000 < p.y < 0x4000_0000
}

/// `s` turned `n` quarter turns counter-clockwise.
pub open spec fn rotate_n(s: Seq<Point>, n: nat) -> Seq<Point>
    decreases n,
{
    if n == 0 {
        s
    } else {
        rotate_all(rotate_n(s, (n - 1) as nat))
    }
}

/// The `k`-th of the eight orientations: four rotations, then four rotations of the mirror image.
pub open spec fn variant(s: Seq<Point>, k: int) -> Seq<Point> {
    if k < 4 {
        rotate_n(s, k as nat)
    } else {
        rotate_n(reflect_all(s), (k - 4) as nat)
    }
}

/// The points of `s` moved by `offset`.
pub open spec fn moved(s: Seq<Point>, offset: Point) -> Seq<Point> {
    s.map_values(|p: Point| translated_spec(p, offset))
}

/// The mask of orientation `k` anchored at board cell `a`, if it lies on the board.
pub open spec fn mask_at(cells: Seq<Point>, tile: Seq<Point>, k: int, a: int) -> Option<u64> {
    encoding_of(cells, moved(variant(tile, k), cells[a]))
}

/// `m` is the mask of some orientation of `tile` anchored at some cell of the board.
pub open spec fn is_candidate(cells: Seq<Point>, tile: Seq<Point>, m: u64) -> bool {
    exists|k: int, a: int| 0 <= k < 8 && 0 <= a < cells.len() && #[trigger] mask_at(cells, tile, k, a) == Some(m)
}

proof fn lemma_small_seq(s: Seq<Point>)
    requires
        forall|i: int| 0 <= i < s.len() ==> small(#[trigger] s[i]),
    ensures
        forall|i: int| 0 <= i < rotate_all(s).len() ==> small(#[trigger] rotate_all(s)[i]),
        forall|i: int| 0 <= i < reflect_all(s).len() ==> small(#[trigger] reflect_all(s)[i]),
        rotate_all(s).len() == s.len(),
        reflect_all(s).len() == s.len(),
{
    assert forall|i: int| 0 <= i < rotate_all(s).len() implies small(#[trigger] rotate_all(s)[i]) by {
        assert(small(s[i]));
    }
    assert forall|i: int| 0 <= i < reflect_all(s).len() implies small(#[trigger] reflect_all(s)[i]) by {
        assert(small(s[i]));
    }
}

fn contains_mask(v: &Vec<u64>, m: u64) -> (r: bool)
    ensures
        r == v@.contains(m),
{
    let mut i: usize = 0;
    while i < v.len()
        invariant
            i <= v@.len(),
            forall|k: int| 0 <= k < i ==> v@[k] != m,
        decreases v@.len() - i,
    {
        if v[i] == m {
            return true;
        }
        i = i + 1;
    }
    false
}

/// Every distinct mask that an orientation of `tile` (four rotations, each with and without
/// mirroring) takes when its anchor is put on a board cell and all its points lie on the board.
pub fn candidates(board: &EncodingBoard, tile: Tile) -> (r: Vec<u64>)
    requires
        forall|i: int| 0 <= i < tile@.len() ==> small(#[trigger] tile@[i]),
        forall|i: int| 0 <= i < board@.len() ==> small(#[trigger] board@[i]),
    ensures
        r@.no_duplicates(),
        forall|i: int| 0 <= i < r@.len() ==> is_candidate(board@, tile@, #[trigger] r@[i]),
        forall|m: u64| is_candidate(board@, tile@, m) ==> #[trigger] r@.contains(m),
{
    let ghost orig = tile@;
    let ghost cells = board@;
    let mut tile = tile;
    let offsets = board.points();
    let mut out: Vec<u64> = Vec::new();
    let mut k: usize = 0;
    while k < 8
        invariant
            k <= 8,
            cells == board@,
            offsets@ == cells,
            forall|i: int| 0 <= i < cells.len() ==> small(#[trigger] cells[i]),
            forall|i: int| 0 <= i < orig.len() ==> small(#[trigger] orig[i]),
            k < 8 ==> tile@ == variant(orig, k as int),
            k < 8 ==> forall|i: int| 0 <= i < tile@.len() ==> small(#[trigger] tile@[i]),
            out@.no_duplicates(),
            forall|i: int| 0 <= i < out@.len() ==> is_candidate(cells, orig, #[trigger] out@[i]),
            forall|k2: int, a2: int|
                0 <= k2 < k && 0 <= a2 < cells.len() && (#[trigger] mask_at(cells, orig, k2, a2)) is Some
                    ==> out@.contains(mask_at(cells, orig, k2, a2)->0),
        decreases 8 - k,
    {
        let mut a: usize = 0;
        while a < offsets.len()
            invariant
                k < 8,
                a <= offsets@.len(),
                cells == board@,
                offsets@ == cells,
                forall|i: int| 0 <= i < cells.len() ==> small(#[trigger] cells[i]),
                tile@ == variant(orig, k as int),
                forall|i: int| 0 <= i < tile@.len() ==> small(#[trigger] tile@[i]),
                out@.no_duplicates(),
                forall|i: int| 0 <= i < out@.len() ==> is_candidate(cells, orig, #[trigger] out@[i]),
                forall|k2: int, a2: int|
                    0 <= k2 < 8 && 0 <= a2 < cells.len() && (k2 < k || (k2 == k && a2 < a)) && (#[trigger] mask_at(
                        cells,
                        orig,
                        k2,
                        a2,
                    )) is Some ==> out@.contains(mask_at(cells, orig, k2, a2)->0),
            decreases offsets@.len() - a,
        {
            let offset = offsets[a];
            proof {
                assert(small(cells[a as int]));
                assert forall|i: int| 0 <= i < tile@.len() implies crate::entity::sum_fits(#[trigger] tile@[i], offset) by {
                    assert(small(tile@[i]));
                }
            }
            let pts = tile.offset_points(offset);
            proof {
                assert(pts@ =~= moved(variant(orig, k as int), cells[a as int]));
            }
            match board.encode(pts.as_slice()) {
                Some(m) => {
                    let ghost before = out@;
                    proof {
                        assert(mask_at(cells, orig, k as int, a as int) == Some(m));
                    }
                    if !contains_mask(&out, m) {
                        out.push(m);
                        proof {
                            assert forall|i: int, j: int| 0 <= i < out@.len() && 0 <= j < out@.len() && i != j implies out@[i] != out@[j] by {
                                if i < before.len() && j < before.len() {
                                    assert(before[i] != before[j]);
                                }
                            }
                            assert forall|k2: int, a2: int|
                                0 <= k2 < 8 && 0 <= a2 < cells.len() && (k2 < k || (k2 == k && a2 < a + 1)) && (#[trigger] mask_at(
                                    cells,
                                    orig,
                                    k2,
                                    a2,
                                )) is Some implies out@.contains(mask_at(cells, orig, k2, a2)->0) by {
                                if k2 == k && a2 == a {
                                    assert(out@[before.len() as int] == m);
                                } else {
                                    let x = mask_at(cells, orig, k2, a2)->0;
                                    assert(before.contains(x));
                                    let j = choose|j: int| 0 <= j < before.len() && before[j] == x;
                                    assert(out@[j] == x);
                                }
                            }
                        }
                    }
                },
                None => {
                    proof {
                        assert(mask_at(cells, orig, k as int, a as int) is None);
                    }
                },
            }
            a = a + 1;
        }
        proof {
            lemma_small_seq(tile@);
        }
        if k == 3 {
            tile.rotate_ccw_90();
            proof {
                assert forall|i: int| 0 <= i < orig.len() implies crate::entity::negatable(#[trigger] orig[i]) by {
                    assert(small(orig[i]));
                }
                lemma_four_rotations(orig);
                assert(rotate_n(orig, 4) == rotate_all(rotate_all(rotate_all(rotate_all(orig))))) by {
                    assert(rotate_n(orig, 0) == orig);
                    assert(rotate_n(orig, 1) == rotate_all(orig));
                    assert(rotate_n(orig, 2) == rotate_all(rotate_all(orig)));
                    assert(rotate_n(orig, 3) == rotate_all(rotate_all(rotate_all(orig))));
                }
                lemma_small_seq(tile@);
            }
            tile.reflect_over_vert();
            proof {
                lemma_small_seq(orig);
            }
        } else if k < 7 {
            tile.rotate_ccw_90();
            proof {
                if k < 3 {
                    assert(variant(orig, k + 1) == rotate_all(variant(orig, k as int)));
                } else {
                    assert(variant(orig, k + 1) == rotate_n(reflect_all(orig), (k + 1 - 4) as nat));
                    assert(rotate_n(reflect_all(orig), (k + 1 - 4) as nat) == rotate_all(rotate_n(reflect_all(orig), (k - 4) as nat)));
                }
                lemma_small_seq(variant(orig, k as int));
            }
        }
        k = k + 1;
    }
    proof {
        assert forall|m: u64| is_candidate(cells, orig, m) implies #[trigger] out@.contains(m) by {
            let (k2, a2) = choose|k2: int, a2: int| 0 <= k2 < 8 && 0 <= a2 < cells.len() && #[trigger] mask_at(cells, orig, k2, a2) == Some(m);
            assert(mask_at(cells, orig, k2, a2) is Some);
        }
    }
    out
}

/// The masks of `configs` that leave the pre-occupied cells of `init` free, in order.
pub open spec fn usable(configs: Seq<u64>, init: u64) -> Seq<u64> {
    configs.filter(|m: u64| m & init == 0)
}

proof fn lemma_usable_step(s: Seq<u64>, i: int, init: u64)
    requires
        0 <= i < s.len(),
    ensures
        usable(s.take(i + 1), init) == if s[i] & init == 0 {
            usable(s.take(i), init).push(s[i])
        } else {
            usable(s.take(i), init)
        },
{
    let t = s.take(i + 1);
    assert(t.drop_last() =~= s.take(i));
    reveal_with_fuel(Seq::filter, 1);
}

/// Lays the usable candidates of every piece out one piece after another. Piece `k`'s
/// candidates end up in `placements[indices[k]..indices[k + 1]]`.
#[verifier::rlimit(40)]
pub fn flatten(configs: &Vec<Vec<u64>>, initial_board: u64) -> (r: (Vec<u64>, Vec<usize>))
    ensures
        r.1@.len() == configs@.len() + 1,
        r.1@[0] == 0,
        r.1@[configs@.len() as int] == r.0@.len(),
        forall|k: int| 0 <= k < configs@.len() ==> #[trigger] r.1@[k] <= r.1@[k + 1],
        forall|k: int|
            0 <= k < configs@.len() ==> r.0@.subrange(#[trigger] r.1@[k] as int, r.1@[k + 1] as int) == usable(
                configs@[k]@,
                initial_board,
            ),
{
    let mut placements: Vec<u64> = Vec::new();
    let mut indices: Vec<usize> = Vec::new();
    indices.push(0);
    let mut k: usize = 0;
    while k < configs.len()
        invariant
            k <= configs@.len(),
            indices@.len() == k + 1,
            indices@[0] == 0,
            indices@[k as int] == placements@.len(),
            forall|j: int| 0 <= j <= k ==> #[trigger] indices@[j] <= placements@.len(),
            forall|j: int| 0 <= j < k ==> #[trigger] indices@[j] <= indices@[j + 1],
            forall|j: int|
                0 <= j < k ==> placements@.subrange(#[trigger] indices@[j] as int, indices@[j + 1] as int) == usable(
                    configs@[j]@,
                    initial_board,
                ),
        decreases configs@.len() - k,
    {
        let ghost start = placements@;
        let configs_k = &configs[k];
        let mut i: usize = 0;
        while i < configs_k.len()
            invariant
                i <= configs_k@.len(),
                k < configs@.len(),
                configs_k@ == configs@[k as int]@,
                start.len() <= placements@.len(),
                placements@ == start + usable(configs_k@.take(i as int), initial_board),
            decreases configs_k@.len() - i,
        {
            let m = configs_k[i];
            proof {
                lemma_usable_step(configs_k@, i as int, initial_board);
            }
            if m & initial_board == 0 {
                placements.push(m);
                proof {
                    assert(placements@ =~= start + usable(configs_k@.take(i + 1), initial_board));
                }
            }
            i = i + 1;
        }
        proof {
            assert(configs_k@.take(i as int) =~= configs_k@);
        }
        let ghost before = indices@;
        indices.push(placements.len());
        proof {
            assert forall|j: int| 0 <= j < k + 1 implies placements@.subrange(#[trigger] indices@[j] as int, indices@[j + 1] as int)
                == usable(configs@[j]@, initial_board) by {
                assert(indices@[j] == before[j]);
                if j < k {
                    assert(indices@[j + 1] == before[j + 1]);
                    assert(before[j + 1] <= start.len());
                    assert(placements@.subrange(indices@[j] as int, indices@[j + 1] as int) =~= start.subrange(
                        indices@[j] as int,
                        indices@[j + 1] as int,
                    ));
                } else {
                    assert(placements@.subrange(indices@[j] as int, indices@[j + 1] as int) =~= usable(
                        configs@[j]@,
                        initial_board,
                    ));
                }
            }
        }
        k = k + 1;
    }
    (placements, indices)
}

} // verus!
