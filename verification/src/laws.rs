//! Laws tying the solver, the moves and the Manhattan heuristic
//! together: the estimate is admissible (it never exceeds the length of
//! any solving path), a zero estimate pins the solved grid, and hence a
//! depth bound below the estimate can never be met by a solution.

use vstd::prelude::*;

use crate::cells::{step_spec, Dir};
use crate::heuristic::{manh, manh_sum, puzzle_wf, solved_seq, ManhattanHeuristic};
use crate::search::{
    apply_gap_path, apply_tile_path, gap_of, gap_step, gap_step_ok, invert_dirs,
    lemma_apply_concat, lemma_apply_path_wf, lemma_gap_of, lemma_gap_step_wf, no_undo_pairs,
    qualifying,
};

verus! {

/// The contribution of cell `c` to the summed Manhattan distance.
pub open spec fn manh_term(s: Seq<u8>, c: int) -> int {
    if s[c] == 0 {
        0
    } else {
        manh(s[c] as int, c)
    }
}

/// Sequences equal on a prefix have equal partial sums.
proof fn lemma_manh_sum_agree(s1: Seq<u8>, s2: Seq<u8>, n: int)
    requires
        forall|c: int| 0 <= c < n ==> s1[c] == s2[c],
    ensures
        manh_sum(s1, n) == manh_sum(s2, n),
    decreases n,
{
    if n > 0 {
        lemma_manh_sum_agree(s1, s2, n - 1);
    }
}

/// Changing one cell changes the sum by exactly that cell's term.
proof fn lemma_manh_sum_one_diff(s: Seq<u8>, u: Seq<u8>, n: int, i: int)
    requires
        0 <= i < n,
        forall|c: int| 0 <= c < n && c != i ==> s[c] == u[c],
    ensures
        manh_sum(u, n) == manh_sum(s, n) - manh_term(s, i) + manh_term(u, i),
    decreases n,
{
    if n - 1 == i {
        lemma_manh_sum_agree(s, u, n - 1);
    } else {
        lemma_manh_sum_one_diff(s, u, n - 1, i);
    }
}

/// One gap move lowers the summed Manhattan distance by at most one:
/// only the swapped tile moves, to an adjacent cell.
proof fn lemma_manh_gap_step(s: Seq<u8>, d: Dir)
    requires
        puzzle_wf(s),
        gap_step_ok(s, d),
    ensures
        manh_sum(gap_step(s, d), 25) >= manh_sum(s, 25) - 1,
{
    reveal(puzzle_wf);
    reveal(crate::search::gap_step_ok);
    reveal(crate::search::gap_step);
    lemma_gap_of(s);
    let g = gap_of(s);
    let a = step_spec(g, d)->Some_0;
    let t = s[a] as int;
    let u1 = s.update(g, s[a]);
    let u2 = u1.update(a, 0u8);
    assert(a != g);
    assert(s[a] != 0);
    lemma_manh_sum_one_diff(s, u1, 25, g);
    lemma_manh_sum_one_diff(u1, u2, 25, a);
    assert(manh_term(s, g) == 0);
    assert(manh_term(u1, g) == manh(t, g));
    assert(manh_term(u1, a) == manh(t, a));
    assert(manh_term(u2, a) == 0);
    // the swap target is one row or one column away, so the moved
    // tile's distance changes by at most one
    assert(manh(t, g) >= manh(t, a) - 1) by {
        lemma_adjacent_rowcol(g, a, d);
    }
}

/// Stepping changes exactly one of row and column, by one.
proof fn lemma_adjacent_rowcol(g: int, a: int, d: Dir)
    requires
        0 <= g < 25,
        step_spec(g, d) == Some(a),
    ensures
        (a / 5 == g / 5 && (a % 5 == g % 5 + 1 || a % 5 == g % 5 - 1)) || (a % 5 == g % 5 && (a
            / 5 == g / 5 + 1 || a / 5 == g / 5 - 1)),
{
    vstd::arithmetic::div_mod::lemma_fundamental_div_mod(g, 5);
    match d {
        Dir::UP => {
            vstd::arithmetic::div_mod::lemma_fundamental_div_mod_converse(a, 5, g / 5 - 1, g % 5);
        },
        Dir::DOWN => {
            vstd::arithmetic::div_mod::lemma_fundamental_div_mod_converse(a, 5, g / 5 + 1, g % 5);
        },
        Dir::LEFT => {
            vstd::arithmetic::div_mod::lemma_fundamental_div_mod_converse(a, 5, g / 5, g % 5 - 1);
        },
        Dir::RIGHT => {
            vstd::arithmetic::div_mod::lemma_fundamental_div_mod_converse(a, 5, g / 5, g % 5 + 1);
        },
    }
}

/// The Manhattan estimate is admissible: along any applicable gap path
/// it can drop by at most one per move, so the start state's estimate
/// never exceeds the path length plus the final state's estimate.
pub proof fn lemma_manhattan_path_lower_bound(s: Seq<u8>, gpath: Seq<Dir>)
    requires
        puzzle_wf(s),
        apply_gap_path(s, gpath) is Some,
    ensures
        manh_sum(s, 25) <= gpath.len() + manh_sum(apply_gap_path(s, gpath)->Some_0, 25),
    decreases gpath.len(),
{
    if gpath.len() > 0 {
        lemma_manh_gap_step(s, gpath[0]);
        lemma_gap_step_wf(s, gpath[0]);
        lemma_manhattan_path_lower_bound(gap_step(s, gpath[0]), gpath.drop_first());
    }
}

/// Heuristic admissibility: for any sequence of tile moves that solves
/// the puzzle, the Manhattan estimate of the start state is at most the
/// move count. In particular it never exceeds the optimal solution
/// length.
pub proof fn lemma_manhattan_admissible(s: Seq<u8>, path: Seq<Dir>, h: ManhattanHeuristic)
    requires
        puzzle_wf(s),
        apply_tile_path(s, path) is Some,
        apply_tile_path(s, path)->Some_0 == solved_seq(),
    ensures
        crate::heuristic::Heuristic::estimate(&h, s) <= path.len(),
{
    lemma_manhattan_path_lower_bound(s, invert_dirs(path));
    lemma_solved_manh_zero();
}

/// The solved grid's summed Manhattan distance is zero.
proof fn lemma_solved_manh_zero()
    ensures
        manh_sum(solved_seq(), 25) == 0,
{
    assert forall|n: int| 0 <= n <= 25 implies manh_sum(solved_seq(), n) == 0 by {
        lemma_solved_manh_zero_upto(n);
    }
}

proof fn lemma_solved_manh_zero_upto(n: int)
    requires
        0 <= n <= 25,
    ensures
        manh_sum(solved_seq(), n) == 0,
    decreases n,
{
    if n > 0 {
        lemma_solved_manh_zero_upto(n - 1);
        assert(solved_seq()[n - 1] == n - 1);
        if n - 1 != 0 {
            assert(manh(n - 1, n - 1) == 0);
        }
    }
}

/// A solver answer under the Manhattan heuristic truly solves the
/// puzzle: the search stops on estimate zero, and a zero estimate pins
/// the solved grid exactly.
pub proof fn lemma_manhattan_answer_solves(s: Seq<u8>, path: Seq<Dir>, h: ManhattanHeuristic)
    requires
        puzzle_wf(s),
        apply_tile_path(s, path) is Some,
        crate::heuristic::Heuristic::estimate(&h, apply_tile_path(s, path)->Some_0) == 0,
    ensures
        apply_tile_path(s, path)->Some_0 == solved_seq(),
{
    lemma_apply_path_wf(s, invert_dirs(path));
    crate::heuristic::lemma_manhattan_zero_is_solved(apply_tile_path(s, path)->Some_0);
}

/// An iterative-deepening answer under the Manhattan heuristic is
/// optimal up to the bound schedule's step: the solver's earlier rounds
/// exhaust every path that qualifies two below the answer's length;
/// under the Manhattan estimate every solution can be reduced to an
/// undo-free one of no greater length, and every undo-free solution
/// qualifies at its own length — so no solution at all is two or more
/// moves shorter. (All solutions of one instance share one length
/// parity — each move swaps one tile pair — so in fact none is shorter;
/// that last parity step is stated here in words, not machine-checked.)
pub proof fn lemma_manhattan_answer_shortest(
    s: Seq<u8>,
    answer_len: int,
    w: Seq<Dir>,
    h: ManhattanHeuristic,
)
    requires
        puzzle_wf(s),
        s != solved_seq(),
        forall|q: Seq<Dir>| !(#[trigger] qualifying(h, s, q, answer_len - 2)),
        apply_tile_path(s, w) is Some,
        apply_tile_path(s, w)->Some_0 == solved_seq(),
    ensures
        w.len() > answer_len - 2,
{
    let gw = invert_dirs(w);
    crate::search::lemma_undo_free_reduction(s, gw);
    let q2 = choose|q2: Seq<Dir>|
        no_undo_pairs(q2) && #[trigger] apply_gap_path(s, q2) == apply_gap_path(s, gw)
            && q2.len() <= gw.len();
    assert(q2.len() >= 1) by {
        if q2.len() == 0 {
            assert(apply_gap_path(s, q2) == Some(s));
        }
    }
    if q2.len() <= answer_len - 2 {
        assert(qualifying(h, s, q2, answer_len - 2)) by {
            reveal(qualifying);
            lemma_solved_manh_zero();
            assert forall|l: int|
                1 <= l < q2.len() implies l + crate::heuristic::Heuristic::estimate(
                &h,
                apply_gap_path(s, #[trigger] q2.take(l))->Some_0,
            ) <= answer_len - 2 by {
                lemma_apply_concat(s, q2.take(l), q2.skip(l));
                assert(q2.take(l) + q2.skip(l) =~= q2);
                let mid = apply_gap_path(s, q2.take(l))->Some_0;
                lemma_apply_path_wf(s, q2.take(l));
                lemma_manhattan_path_lower_bound(mid, q2.skip(l));
                assert(manh_sum(mid, 25) <= q2.skip(l).len());
            }
        }
        assert(false);
    }
}

/// A depth bound below the Manhattan estimate can never be met: any
/// solution path within the bound would contradict admissibility. So a
/// bounded search run with such a bound must report "not solved".
pub proof fn lemma_short_bound_has_no_solution(
    s: Seq<u8>,
    path: Seq<Dir>,
    max_depth: u8,
    h: ManhattanHeuristic,
)
    requires
        puzzle_wf(s),
        path.len() <= max_depth,
        apply_tile_path(s, path) is Some,
        crate::heuristic::Heuristic::estimate(&h, apply_tile_path(s, path)->Some_0) == 0,
    ensures
        max_depth >= crate::heuristic::Heuristic::estimate(&h, s),
{
    lemma_manhattan_answer_solves(s, path, h);
    lemma_manhattan_admissible(s, path, h);
}

} // verus!
