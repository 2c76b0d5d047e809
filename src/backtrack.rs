use vstd::prelude::*;

verus! {

/// Number of candidates of piece `k`.
pub open spec fn slice_len(bounds: Seq<usize>, k: int) -> int {
    bounds[k + 1] - bounds[k]
}

/// The mask of choice `c` (counted from the start of the slice) of piece `k`.
pub open spec fn candidate(placements: Seq<u64>, bounds: Seq<usize>, k: int, c: int) -> u64 {
    placements[bounds[k] + c]
}

/// The board after the first `choices.len()` pieces have been placed on `init`.
pub open spec fn board_after(init: u64, placements: Seq<u64>, bounds: Seq<usize>, choices: Seq<usize>) -> u64
    decreases choices.len(),
{
    if choices.len() == 0 {
        init
    } else {
        board_after(init, placements, bounds, choices.drop_last()) | candidate(
            placements,
            bounds,
            choices.len() - 1,
            choices.last() as int,
        )
    }
}

/// Choice `k` lies in its piece's slice and does not overlap the board built before it.
pub open spec fn fits_at(init: u64, placements: Seq<u64>, bounds: Seq<usize>, choices: Seq<usize>, k: int) -> bool {
    choices[k] < slice_len(bounds, k) && candidate(placements, bounds, k, choices[k] as int) & board_after(
        init,
        placements,
        bounds,
        choices.take(k),
    ) == 0
}

/// Choices for the first pieces, each fitting on the board left by those before it.
pub open spec fn valid_prefix(init: u64, placements: Seq<u64>, bounds: Seq<usize>, choices: Seq<usize>) -> bool {
    &&& choices.len() < bounds.len()
    &&& forall|k: int| 0 <= k < choices.len() ==> #[trigger] fits_at(init, placements, bounds, choices, k)
}

/// One fitting choice for every piece.
pub open spec fn is_solution(init: u64, placements: Seq<u64>, bounds: Seq<usize>, choices: Seq<usize>) -> bool {
    &&& valid_prefix(init, placements, bounds, choices)
    &&& choices.len() == bounds.len() - 1
}

/// `t` and `s` agree before position `j`, and `t` is smaller at `j`.
pub open spec fn smaller_at(t: Seq<usize>, s: Seq<usize>, j: int) -> bool {
    &&& 0 <= j < s.len()
    &&& j < t.len()
    &&& t.take(j) == s.take(j)
    &&& t[j] < s[j]
}

/// `t` comes before `s` in lexicographic order.
pub open spec fn lex_less(t: Seq<usize>, s: Seq<usize>) -> bool {
    exists|j: int| #[trigger] smaller_at(t, s, j)
}

/// Well-formed slice boundaries: at least one piece, each slice non-empty, all inside `placements`.
pub open spec fn bounds_ok(placements: Seq<u64>, bounds: Seq<usize>) -> bool {
    &&& bounds.len() >= 2
    &&& forall|k: int| 0 <= k < bounds.len() - 1 ==> #[trigger] bounds[k] < bounds[k + 1]
    &&& bounds[bounds.len() - 1] <= placements.len()
}

/// No solution lies before `prefix.push(c)` in lexicographic order.
spec fn none_before(init: u64, placements: Seq<u64>, bounds: Seq<usize>, prefix: Seq<usize>, c: usize) -> bool {
    forall|t: Seq<usize>| #[trigger] is_solution(init, placements, bounds, t) ==> !lex_less(t, prefix.push(c))
}

spec fn power(b: nat, e: nat) -> nat
    decreases e,
{
    if e == 0 {
        1
    } else {
        b * power(b, (e - 1) as nat)
    }
}

/// Untried candidates of levels `0..=i`, each weighted above all levels below it.
spec fn progress(sel: Seq<usize>, bounds: Seq<usize>, i: int, base: nat, n: nat) -> int
    decreases i + 1,
{
    if i < 0 {
        0
    } else {
        progress(sel, bounds, i - 1, base, n) + (bounds[i + 1] - sel[i]) * power(base, (n - i) as nat)
    }
}

proof fn lemma_power_positive(b: nat, e: nat)
    requires
        b >= 1,
    ensures
        power(b, e) >= 1,
    decreases e,
{
    if e > 0 {
        lemma_power_positive(b, (e - 1) as nat);
        assert(b * power(b, (e - 1) as nat) >= 1) by (nonlinear_arith)
            requires
                b >= 1,
                power(b, (e - 1) as nat) >= 1,
        ;
    }
}

proof fn lemma_progress_nonneg(sel: Seq<usize>, bounds: Seq<usize>, i: int, base: nat, n: nat)
    requires
        i < sel.len(),
        i + 1 < bounds.len(),
        forall|j: int| 0 <= j <= i ==> sel[j] <= #[trigger] bounds[j + 1],
    ensures
        progress(sel, bounds, i, base, n) >= 0,
    decreases i + 1,
{
    if i >= 0 {
        lemma_progress_nonneg(sel, bounds, i - 1, base, n);
        let a = bounds[i + 1] - sel[i];
        let p = power(base, (n - i) as nat);
        assert(a >= 0);
        assert(a * p >= 0) by (nonlinear_arith)
            requires
                a >= 0,
                p >= 0,
        ;
    }
}

proof fn lemma_progress_frame(s1: Seq<usize>, s2: Seq<usize>, bounds: Seq<usize>, i: int, base: nat, n: nat)
    requires
        forall|j: int| 0 <= j <= i ==> s1[j] == s2[j],
    ensures
        progress(s1, bounds, i, base, n) == progress(s2, bounds, i, base, n),
    decreases i + 1,
{
    if i >= 0 {
        lemma_progress_frame(s1, s2, bounds, i - 1, base, n);
    }
}

proof fn lemma_bounds_increase(pl: Seq<u64>, bd: Seq<usize>, a: int, b: int)
    requires
        bounds_ok(pl, bd),
        0 <= a <= b < bd.len(),
    ensures
        bd[a] <= bd[b],
    decreases b - a,
{
    if a < b {
        lemma_bounds_increase(pl, bd, a + 1, b);
        assert(bd[a] < bd[a + 1]);
    }
}

proof fn lemma_take_all<A>(s: Seq<A>)
    ensures
        s.take(s.len() as int) == s,
{
    assert(s.take(s.len() as int) =~= s);
}

/// A candidate that overlaps the board cannot extend the current prefix to a solution.
proof fn lemma_skip(init: u64, pl: Seq<u64>, bd: Seq<usize>, prefix: Seq<usize>, cl: usize)
    requires
        none_before(init, pl, bd, prefix, cl),
        candidate(pl, bd, prefix.len() as int, cl as int) & board_after(init, pl, bd, prefix) != 0,
        cl < usize::MAX,
    ensures
        none_before(init, pl, bd, prefix, (cl + 1) as usize),
{
    let i = prefix.len() as int;
    let next = prefix.push((cl + 1) as usize);
    assert forall|t: Seq<usize>| #[trigger] is_solution(init, pl, bd, t) implies !lex_less(t, next) by {
        if lex_less(t, next) {
            let j = choose|j: int| #[trigger] smaller_at(t, next, j);
            if j < i || t[j] < cl {
                assert(t.take(j) =~= prefix.push(cl).take(j));
                assert(smaller_at(t, prefix.push(cl), j));
            } else {
                assert(t.take(j) =~= prefix);
                assert(fits_at(init, pl, bd, t, j));
            }
        }
    }
}

/// Placing a fitting candidate extends the prefix; nothing before the new prefix is a solution.
proof fn lemma_descend(init: u64, pl: Seq<u64>, bd: Seq<usize>, prefix: Seq<usize>, cl: usize)
    requires
        valid_prefix(init, pl, bd, prefix),
        none_before(init, pl, bd, prefix, cl),
        prefix.len() + 1 < bd.len(),
        cl < slice_len(bd, prefix.len() as int),
        candidate(pl, bd, prefix.len() as int, cl as int) & board_after(init, pl, bd, prefix) == 0,
    ensures
        valid_prefix(init, pl, bd, prefix.push(cl)),
        none_before(init, pl, bd, prefix.push(cl), 0),
        board_after(init, pl, bd, prefix.push(cl)) == board_after(init, pl, bd, prefix) | candidate(
            pl,
            bd,
            prefix.len() as int,
            cl as int,
        ),
        forall|t: Seq<usize>| #[trigger] is_solution(init, pl, bd, t) ==> !lex_less(t, prefix.push(cl)),
{
    let i = prefix.len() as int;
    let np = prefix.push(cl);
    assert(np.take(i) =~= prefix);
    assert(np.drop_last() =~= prefix);
    assert forall|k: int| 0 <= k < np.len() implies #[trigger] fits_at(init, pl, bd, np, k) by {
        if k < i {
            assert(np.take(k) =~= prefix.take(k));
            assert(fits_at(init, pl, bd, prefix, k));
        }
    }
    assert forall|t: Seq<usize>| #[trigger] is_solution(init, pl, bd, t) implies !lex_less(t, np.push(0)) by {
        if lex_less(t, np.push(0)) {
            let j = choose|j: int| #[trigger] smaller_at(t, np.push(0), j);
            assert(j <= i);
            assert(t.take(j) =~= prefix.push(cl).take(j));
            assert(smaller_at(t, prefix.push(cl), j));
        }
    }
}

/// When every candidate of the last level fails, the level below moves on to its next candidate.
proof fn lemma_pop(init: u64, pl: Seq<u64>, bd: Seq<usize>, prefix: Seq<usize>, cend: usize)
    requires
        valid_prefix(init, pl, bd, prefix),
        prefix.len() >= 1,
        prefix.len() + 1 < bd.len(),
        none_before(init, pl, bd, prefix, cend),
        cend >= slice_len(bd, prefix.len() as int),
        prefix.last() < usize::MAX,
    ensures
        valid_prefix(init, pl, bd, prefix.drop_last()),
        none_before(init, pl, bd, prefix.drop_last(), (prefix.last() + 1) as usize),
        prefix.drop_last().len() == prefix.len() - 1,
        forall|j: int| 0 <= j < prefix.len() - 1 ==> #[trigger] prefix.drop_last().take(j) == prefix.take(j),
{
    let i = prefix.len() - 1;
    let p = prefix.drop_last();
    let last = prefix.last();
    assert(prefix.take(i) =~= p);
    assert forall|j: int| 0 <= j < prefix.len() - 1 implies #[trigger] p.take(j) == prefix.take(j) by {
        assert(p.take(j) =~= prefix.take(j));
    }
    assert forall|k: int| 0 <= k < p.len() implies #[trigger] fits_at(init, pl, bd, p, k) by {
        assert(p.take(k) =~= prefix.take(k));
        assert(fits_at(init, pl, bd, prefix, k));
    }
    let next = p.push((last + 1) as usize);
    assert forall|t: Seq<usize>| #[trigger] is_solution(init, pl, bd, t) implies !lex_less(t, next) by {
        if lex_less(t, next) {
            let j = choose|j: int| #[trigger] smaller_at(t, next, j);
            if j < i || t[j] < last {
                assert(t.take(j) =~= prefix.push(cend).take(j));
                assert(smaller_at(t, prefix.push(cend), j));
            } else {
                assert(t.take(i + 1) =~= prefix);
                assert(fits_at(init, pl, bd, t, i + 1));
                assert(t.take(i + 1) =~= prefix.push(cend).take(i + 1));
                assert(smaller_at(t, prefix.push(cend), i + 1));
            }
        }
    }
}

/// When every candidate of the first piece fails, there is no solution.
proof fn lemma_no_solution(init: u64, pl: Seq<u64>, bd: Seq<usize>, cend: usize)
    requires
        none_before(init, pl, bd, Seq::empty(), cend),
        bd.len() >= 2,
        cend >= slice_len(bd, 0),
    ensures
        forall|t: Seq<usize>| !is_solution(init, pl, bd, t),
{
    let e = Seq::<usize>::empty().push(cend);
    assert forall|t: Seq<usize>| !is_solution(init, pl, bd, t) by {
        if is_solution(init, pl, bd, t) {
            assert(fits_at(init, pl, bd, t, 0));
            assert(t.take(0) =~= e.take(0));
            assert(smaller_at(t, e, 0));
        }
    }
}

/// Nothing comes before the very first choice.
proof fn lemma_start(init: u64, pl: Seq<u64>, bd: Seq<usize>)
    ensures
        none_before(init, pl, bd, Seq::empty(), 0),
{
    let e = Seq::<usize>::empty().push(0);
    assert forall|t: Seq<usize>| #[trigger] is_solution(init, pl, bd, t) implies !lex_less(t, e) by {
        if lex_less(t, e) {
            let j = choose|j: int| #[trigger] smaller_at(t, e, j);
            assert(j == 0);
        }
    }
}

/// Descending lowers the measure: the level left behind loses a candidate, which outweighs
/// all candidates of the level entered.
proof fn lemma_progress_descend(s0: Seq<usize>, s1: Seq<usize>, bd: Seq<usize>, i: int, base: nat, n: nat)
    requires
        0 <= i,
        i + 1 < n,
        n == bd.len() - 1,
        s0.len() == n,
        s1.len() == n,
        forall|j: int| 0 <= j < i ==> s0[j] == s1[j],
        s0[i] < s1[i] <= bd[i + 1],
        s1[i + 1] == bd[i + 1],
        bd[i + 1] <= bd[i + 2],
        bd[i + 2] - bd[i + 1] < base,
    ensures
        progress(s1, bd, i + 1, base, n) < progress(s0, bd, i, base, n),
{
    lemma_progress_frame(s0, s1, bd, i - 1, base, n);
    let p = power(base, (n - (i + 1)) as nat);
    lemma_power_positive(base, (n - (i + 1)) as nat);
    assert((n - i) as nat - 1 == (n - (i + 1)) as nat);
    assert(power(base, (n - i) as nat) == base * p);
    let a = bd[i + 1] - s0[i];
    let a1 = bd[i + 1] - s1[i];
    let w = bd[i + 2] - bd[i + 1];
    let rest = progress(s0, bd, i - 1, base, n);
    assert(progress(s0, bd, i, base, n) == rest + a * (base * p));
    assert(progress(s1, bd, i, base, n) == rest + a1 * (base * p));
    assert(progress(s1, bd, i + 1, base, n) == progress(s1, bd, i, base, n) + w * p);
    assert(a1 * (base * p) + w * p < a * (base * p)) by (nonlinear_arith)
        requires
            a1 < a,
            0 <= w < base,
            p >= 1,
    ;
}

/// Leaving an exhausted level does not raise the measure.
proof fn lemma_progress_pop(s0: Seq<usize>, s1: Seq<usize>, bd: Seq<usize>, i: int, base: nat, n: nat)
    requires
        1 <= i < n,
        n == bd.len() - 1,
        s0.len() == n,
        s1.len() == n,
        forall|j: int| 0 <= j < i ==> s0[j] == s1[j],
        forall|j: int| 0 <= j <= i ==> s0[j] <= #[trigger] bd[j + 1],
        base >= 1,
    ensures
        progress(s1, bd, i - 1, base, n) <= progress(s0, bd, i, base, n),
        progress(s1, bd, i - 1, base, n) >= 0,
{
    lemma_progress_frame(s0, s1, bd, i - 1, base, n);
    lemma_progress_nonneg(s0, bd, i - 1, base, n);
    lemma_power_positive(base, (n - i) as nat);
    let a = bd[i + 1] - s0[i];
    let p = power(base, (n - i) as nat);
    assert(a * p >= 0) by (nonlinear_arith)
        requires
            a >= 0,
            p >= 1,
    ;
}

/// Finds one candidate per piece such that no chosen mask overlaps `initial_board` or another
/// chosen mask. Piece `k` chooses among `placements[placement_indices[k]..placement_indices[k + 1]]`.
/// The result gives, for each piece, the index of its choice within its own slice; of all
/// solutions it is the first in lexicographic order. `None` means that no solution exists.
#[verifier::rlimit(60)]
pub fn backtrack(initial_board: u64, placements: &[u64], placement_indices: &[usize]) -> (r: Option<Vec<usize>>)
    requires
        bounds_ok(placements@, placement_indices@),
    ensures
        match r {
            None => forall|t: Seq<usize>| !is_solution(initial_board, placements@, placement_indices@, t),
            Some(v) => {
                &&& is_solution(initial_board, placements@, placement_indices@, v@)
                &&& forall|t: Seq<usize>| #[trigger]
                    is_solution(initial_board, placements@, placement_indices@, t) ==> !lex_less(t, v@)
            },
        },
{
    let ghost pl = placements@;
    let ghost bd = placement_indices@;
    let ghost init = initial_board;
    let n: usize = placement_indices.len() - 1;
    let ghost base: nat = (placements@.len() + 1) as nat;

    // Next candidate to try at each level; levels above the current one sit at their slice start.
    let mut selected_placements: Vec<usize> = Vec::new();
    let mut k: usize = 0;
    while k < n
        invariant
            bd == placement_indices@,
            n == bd.len() - 1,
            k <= n,
            selected_placements@ == bd.take(k as int),
        decreases n - k,
    {
        selected_placements.push(placement_indices[k]);
        proof {
            assert(bd.take(k + 1) =~= bd.take(k as int).push(bd[k as int]));
        }
        k = k + 1;
    }
    // The board as it was before each level placed its piece.
    let mut board_states: Vec<u64> = vec![initial_board; n];
    let mut i: usize = 0;
    let mut board: u64 = initial_board;
    let ghost mut prefix: Seq<usize> = Seq::empty();
    proof {
        lemma_start(init, pl, bd);
    }

    loop
        invariant
            pl == placements@,
            bd == placement_indices@,
            init == initial_board,
            bounds_ok(pl, bd),
            base == pl.len() + 1,
            n == bd.len() - 1,
            i < n,
            selected_placements@.len() == n,
            board_states@.len() == n,
            prefix.len() == i,
            valid_prefix(init, pl, bd, prefix),
            board == board_after(init, pl, bd, prefix),
            forall|j: int| 0 <= j < i ==> #[trigger] board_states@[j] == board_after(init, pl, bd, prefix.take(j)),
            forall|j: int| 0 <= j < i ==> #[trigger] selected_placements@[j] == bd[j] + prefix[j] + 1,
            forall|j: int| i < j < n ==> #[trigger] selected_placements@[j] == bd[j],
            bd[i as int] <= selected_placements@[i as int] <= bd[i + 1],
            none_before(init, pl, bd, prefix, (selected_placements@[i as int] - bd[i as int]) as usize),
        decreases progress(selected_placements@, bd, i as int, base, n as nat), i,
    {
        proof {
            assert(bd[i as int] < bd[i + 1]);
        }
        proof {
            lemma_bounds_increase(pl, bd, i + 1, bd.len() - 1);
        }
        let bound = placement_indices[i + 1];
        let mut c: usize = selected_placements[i];
        // Skip the candidates that overlap the board built so far.
        while c < bound && placements[c] & board != 0
            invariant
                bd[i as int] <= c <= bound,
                selected_placements@.len() == n,
                i < n,
                selected_placements@[i as int] <= c,
                bound == bd[i + 1],
                bound <= pl.len(),
                pl == placements@,
                bd == placement_indices@,
                i + 1 < bd.len(),
                prefix.len() == i,
                board == board_after(init, pl, bd, prefix),
                none_before(init, pl, bd, prefix, (c - bd[i as int]) as usize),
            decreases bound - c,
        {
            proof {
                lemma_skip(init, pl, bd, prefix, (c - bd[i as int]) as usize);
                assert((c + 1 - bd[i as int]) as usize == (c - bd[i as int]) as usize + 1);
            }
            c = c + 1;
        }
        let ghost s0 = selected_placements@;
        let ghost old_prefix = prefix;
        if c < bound {
            let ghost cl = (c - bd[i as int]) as usize;
            proof {
                assert(candidate(pl, bd, i as int, cl as int) == placements@[c as int]);
            }
            selected_placements.set(i, c + 1);
            board_states.set(i, board);
            if i + 1 == n {
                proof {
                    prefix = prefix.push(cl);
                    assert forall|k: int| 0 <= k < prefix.len() implies #[trigger] fits_at(init, pl, bd, prefix, k) by {
                        assert(prefix.take(i as int) =~= old_prefix);
                        if k < i {
                            assert(prefix.take(k) =~= old_prefix.take(k));
                            assert(fits_at(init, pl, bd, old_prefix, k));
                        }
                    }
                    assert forall|j: int| 0 <= j < n implies #[trigger] selected_placements@[j] == bd[j] + prefix[j] + 1 by {
                        if j < i {
                            assert(prefix[j] == old_prefix[j]);
                        }
                    }
                }
                let mut out: Vec<usize> = Vec::new();
                let mut k: usize = 0;
                while k < n
                    invariant
                        bd == placement_indices@,
                        k <= n,
                        n == bd.len() - 1,
                        selected_placements@.len() == n,
                        prefix.len() == n,
                        forall|j: int| 0 <= j < n ==> #[trigger] selected_placements@[j] == bd[j] + prefix[j] + 1,
                        out@ == prefix.take(k as int),
                    decreases n - k,
                {
                    out.push(selected_placements[k] - 1 - placement_indices[k]);
                    proof {
                        assert(prefix.take(k + 1) =~= prefix.take(k as int).push(prefix[k as int]));
                    }
                    k = k + 1;
                }
                proof {
                    lemma_take_all(prefix);
                }
                return Some(out);
            }
            proof {
                lemma_descend(init, pl, bd, prefix, cl);
                prefix = prefix.push(cl);
                assert forall|j: int| 0 <= j <= i implies #[trigger] board_states@[j] == board_after(init, pl, bd, prefix.take(j)) by {
                    assert(prefix.take(j) =~= old_prefix.take(j));
                    if j == i {
                        lemma_take_all(old_prefix);
                    }
                }
                assert forall|j: int| 0 <= j <= i implies #[trigger] selected_placements@[j] == bd[j] + prefix[j] + 1 by {
                    if j < i {
                        assert(prefix[j] == old_prefix[j]);
                    }
                }
                assert(bd[i + 1] < bd[i + 2]);
                lemma_bounds_increase(pl, bd, i + 2, bd.len() - 1);
                lemma_progress_descend(s0, selected_placements@, bd, i as int, base, n as nat);
                assert forall|j: int| 0 <= j <= i + 1 implies selected_placements@[j] <= #[trigger] bd[j + 1] by {
                    if j < i {
                        assert(fits_at(init, pl, bd, prefix, j));
                    }
                }
                lemma_progress_nonneg(selected_placements@, bd, i + 1, base, n as nat);
            }
            board = board | placements[c];
            i = i + 1;
        } else {
            selected_placements.set(i, placement_indices[i]);
            if i == 0 {
                proof {
                    assert(prefix =~= Seq::<usize>::empty());
                    lemma_no_solution(init, pl, bd, (c - bd[0]) as usize);
                }
                return None;
            }
            proof {
                assert(s0[i - 1] == bd[i - 1] + prefix[i - 1] + 1);
                lemma_pop(init, pl, bd, prefix, (c - bd[i as int]) as usize);
                prefix = prefix.drop_last();
                assert forall|j: int| 0 <= j <= i implies s0[j] <= #[trigger] bd[j + 1] by {
                    if j < i {
                        assert(fits_at(init, pl, bd, old_prefix, j));
                        assert(s0[j] == bd[j] + old_prefix[j] + 1);
                    }
                }
                lemma_progress_pop(s0, selected_placements@, bd, i as int, base, n as nat);
            }
            i = i - 1;
            board = board_states[i];
            proof {
                assert(old_prefix.take(i as int) =~= prefix);
            }
        }
    }
}

} // verus!
