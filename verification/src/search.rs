//! The iterative-deepening A* solver: an explicit frame stack with a
//! per-frame "next direction to try" cursor, driven by a heuristic.
//!
//! Internally the search reasons about gap moves; the caller-visible
//! answer is the inverted sequence, i.e. the directions the tiles move.

use vstd::prelude::*;

use crate::cells::{dir_inv_spec, step_spec, Dir, PuzzleCell, PuzzleTile};
use crate::grids::{grid_wf, Puzzle24Grid};
use crate::heuristic::{puzzle_wf, Heuristic};

verus! {

/// The unique cell holding the gap of a valid puzzle.
#[verifier::opaque]
pub open spec fn gap_of(s: Seq<u8>) -> int {
    choose|i: int| 0 <= i < 25 && s[i] == 0
}

/// Whether the gap of `s` can move one step in direction `dir`.
#[verifier::opaque]
pub open spec fn gap_step_ok(s: Seq<u8>, dir: Dir) -> bool {
    step_spec(gap_of(s), dir) is Some
}

/// The puzzle after the gap of `s` moves one step in direction `dir`:
/// the tile on the adjacent cell swaps into the old gap cell.
#[verifier::opaque]
pub open spec fn gap_step(s: Seq<u8>, dir: Dir) -> Seq<u8> {
    let g = gap_of(s);
    let a = step_spec(g, dir)->Some_0;
    s.update(g, s[a]).update(a, 0u8)
}

/// The puzzle after the gap of `s` moves along all of `path`, or `None`
/// if some step leaves the grid.
pub open spec fn apply_gap_path(s: Seq<u8>, path: Seq<Dir>) -> Option<Seq<u8>>
    decreases path.len(),
{
    if path.len() == 0 {
        Some(s)
    } else if gap_step_ok(s, path[0]) {
        apply_gap_path(gap_step(s, path[0]), path.drop_first())
    } else {
        None
    }
}

/// Each direction of a path replaced by its opposite. Tile moves and gap
/// moves are each other's inversion in this sense.
pub open spec fn invert_dirs(path: Seq<Dir>) -> Seq<Dir> {
    path.map_values(|d: Dir| dir_inv_spec(d))
}

/// The puzzle after the tiles of `s` move along all of `path`: a tile
/// moving in direction `d` is the gap moving in the opposite direction.
pub open spec fn apply_tile_path(s: Seq<u8>, path: Seq<Dir>) -> Option<Seq<u8>> {
    apply_gap_path(s, invert_dirs(path))
}

/// No move of the path immediately undoes the move before it.
#[verifier::opaque]
pub open spec fn no_undo_pairs(path: Seq<Dir>) -> bool {
    forall|i: int| 0 <= i < path.len() - 1 ==> path[i + 1] != dir_inv_spec(#[trigger] path[i])
}

/// The gap of a valid puzzle exists, is unique, and is `gap_of`.
pub proof fn lemma_gap_of(s: Seq<u8>)
    requires
        puzzle_wf(s),
    ensures
        0 <= gap_of(s) < 25,
        s[gap_of(s)] == 0,
        forall|c: int| 0 <= c < 25 && s[c] == 0 ==> c == gap_of(s),
{
    reveal(puzzle_wf);
    reveal(gap_of);
    let w = choose|i: int| 0 <= i < 25 && s[i] == 0;
    assert(0 <= w < 25 && s[w] == 0);
}

/// One gap move preserves validity of the puzzle, and moves the gap to
/// the stepped-to cell. This is the gap invariant: after any move from a
/// valid grid, exactly one cell holds the gap.
pub proof fn lemma_gap_step_wf(s: Seq<u8>, dir: Dir)
    requires
        puzzle_wf(s),
        gap_step_ok(s, dir),
    ensures
        puzzle_wf(gap_step(s, dir)),
        gap_of(gap_step(s, dir)) == step_spec(gap_of(s), dir)->Some_0,
        gap_step(s, dir)[gap_of(s)] == s[step_spec(gap_of(s), dir)->Some_0],
{
    reveal(puzzle_wf);
    reveal(gap_step_ok);
    reveal(gap_step);
    lemma_gap_of(s);
    let g = gap_of(s);
    let a = step_spec(g, dir)->Some_0;
    let s2 = gap_step(s, dir);
    assert(a != g);
    assert(s[a] != 0);
    assert(s2[a] == 0);
    assert(forall|i: int, j: int|
        0 <= i < 25 && 0 <= j < 25 && i != j ==> s2[i] != s2[j]);
    lemma_gap_of(s2);
}

/// Validity of the puzzle is preserved along any whole sequence of gap
/// moves that applies.
pub proof fn lemma_apply_path_wf(s: Seq<u8>, path: Seq<Dir>)
    requires
        puzzle_wf(s),
        apply_gap_path(s, path) is Some,
    ensures
        puzzle_wf(apply_gap_path(s, path)->Some_0),
    decreases path.len(),
{
    if path.len() > 0 {
        lemma_gap_step_wf(s, path[0]);
        lemma_apply_path_wf(gap_step(s, path[0]), path.drop_first());
    }
}

/// Extending a path by one applicable step extends its application.
pub proof fn lemma_apply_push(s: Seq<u8>, path: Seq<Dir>, d: Dir)
    requires
        apply_gap_path(s, path) is Some,
        gap_step_ok(apply_gap_path(s, path)->Some_0, d),
    ensures
        apply_gap_path(s, path.push(d)) == Some(
            gap_step(apply_gap_path(s, path)->Some_0, d),
        ),
    decreases path.len(),
{
    if path.len() == 0 {
        assert(path.push(d)[0] == d);
        assert(path.push(d).drop_first() =~= Seq::<Dir>::empty());
        assert(apply_gap_path(s, path)->Some_0 == s);
        assert(apply_gap_path(gap_step(s, d), path.push(d).drop_first()) == Some(gap_step(s, d)));
    } else {
        assert(path.push(d)[0] == path[0]);
        assert(path.push(d).drop_first() =~= path.drop_first().push(d));
        lemma_apply_push(gap_step(s, path[0]), path.drop_first(), d);
    }
}

/// A gap move followed by its opposite returns to the same state.
pub proof fn lemma_gap_step_cancel(s: Seq<u8>, d: Dir)
    requires
        puzzle_wf(s),
        gap_step_ok(s, d),
    ensures
        gap_step_ok(gap_step(s, d), dir_inv_spec(d)),
        gap_step(gap_step(s, d), dir_inv_spec(d)) == s,
{
    reveal(puzzle_wf);
    reveal(gap_step_ok);
    reveal(gap_step);
    lemma_gap_of(s);
    lemma_gap_step_wf(s, d);
    let g = gap_of(s);
    let a = step_spec(g, d)->Some_0;
    let s2 = gap_step(s, d);
    crate::cells::lemma_step_inverse(g, d);
    assert(step_spec(a, dir_inv_spec(d)) == Some(g));
    let s3 = gap_step(s2, dir_inv_spec(d));
    assert(s3 =~= s);
}

/// Every applicable gap path can be reduced to one that never
/// immediately undoes a move, reaching the same state in at most as many
/// moves: an undo pair can always be spliced out.
pub proof fn lemma_undo_free_reduction(s: Seq<u8>, q: Seq<Dir>)
    requires
        puzzle_wf(s),
        apply_gap_path(s, q) is Some,
    ensures
        exists|q2: Seq<Dir>|
            no_undo_pairs(q2) && #[trigger] apply_gap_path(s, q2) == apply_gap_path(s, q)
                && q2.len() <= q.len(),
    decreases q.len(),
{
    reveal(no_undo_pairs);
    if no_undo_pairs(q) {
        assert(apply_gap_path(s, q) == apply_gap_path(s, q));
    } else {
        let i = choose|i: int|
            0 <= i < q.len() - 1 && q[i + 1] == dir_inv_spec(#[trigger] q[i]);
        let a = q.take(i);
        let b = q.skip(i + 2);
        let pair = q.subrange(i, i + 2);
        assert(q =~= a + (pair + b));
        lemma_apply_concat(s, a, pair + b);
        let t = apply_gap_path(s, a)->Some_0;
        lemma_apply_path_wf(s, a);
        // the two opposite moves cancel, so the pair applies back to `t`
        assert(apply_gap_path(t, pair) == Some(t)) by {
            assert(pair[0] == q[i]);
            assert(pair.drop_first() =~= seq![q[i + 1]]);
            assert(gap_step_ok(t, q[i])) by {
                lemma_apply_concat(t, pair, b);
                if !gap_step_ok(t, q[i]) {
                    assert(apply_gap_path(t, pair) is None);
                }
            }
            lemma_gap_step_cancel(t, q[i]);
            let t2 = gap_step(t, q[i]);
            assert(pair.drop_first()[0] == q[i + 1]);
            assert(pair.drop_first().drop_first() =~= Seq::<Dir>::empty());
            assert(gap_step_ok(t2, q[i + 1]));
            assert(gap_step(t2, q[i + 1]) == t);
            assert(apply_gap_path(gap_step(t2, q[i + 1]), pair.drop_first().drop_first())
                == Some(t));
            assert(apply_gap_path(t2, pair.drop_first()) == Some(t));
        }
        lemma_apply_concat(t, pair, b);
        let q1 = a + b;
        lemma_apply_concat(s, a, b);
        assert(apply_gap_path(s, q1) == apply_gap_path(s, q));
        assert(q1.len() + 2 == q.len());
        lemma_undo_free_reduction(s, q1);
        let q2 = choose|q2: Seq<Dir>|
            no_undo_pairs(q2) && #[trigger] apply_gap_path(s, q2) == apply_gap_path(s, q1)
                && q2.len() <= q1.len();
        assert(apply_gap_path(s, q2) == apply_gap_path(s, q));
    }
}

/// A path applies in two halves: the whole path reaches what the second
/// half reaches from the first half's end, and fails when either fails.
pub proof fn lemma_apply_concat(s: Seq<u8>, a: Seq<Dir>, b: Seq<Dir>)
    ensures
        apply_gap_path(s, a + b) == (match apply_gap_path(s, a) {
            Some(t) => apply_gap_path(t, b),
            None => None::<Seq<u8>>,
        }),
    decreases a.len(),
{
    if a.len() == 0 {
        assert(a + b =~= b);
    } else {
        assert((a + b)[0] == a[0]);
        assert((a + b).drop_first() =~= a.drop_first() + b);
        if gap_step_ok(s, a[0]) {
            lemma_apply_concat(gap_step(s, a[0]), a.drop_first(), b);
        }
    }
}

/// A chain of states, each one gap move from its predecessor, applies as
/// a whole path from the first state to the last.
pub proof fn lemma_chain_apply(fs: Seq<Seq<u8>>, path: Seq<Dir>)
    requires
        fs.len() == path.len() + 1,
        forall|i: int|
            0 <= i < path.len() ==> gap_step_ok(fs[i], #[trigger] path[i]) && fs[i + 1]
                == gap_step(fs[i], path[i]),
    ensures
        apply_gap_path(fs[0], path) == Some(fs[path.len() as int]),
    decreases path.len(),
{
    if path.len() > 0 {
        assert(fs.drop_first().len() == path.drop_first().len() + 1);
        assert forall|i: int| 0 <= i < path.drop_first().len() implies gap_step_ok(
            fs.drop_first()[i],
            #[trigger] path.drop_first()[i],
        ) && fs.drop_first()[i + 1] == gap_step(fs.drop_first()[i], path.drop_first()[i]) by {
            assert(path[i + 1] == path.drop_first()[i]);
            assert(fs[i + 1] == fs.drop_first()[i]);
            assert(fs[i + 2] == fs.drop_first()[i + 1]);
        }
        lemma_chain_apply(fs.drop_first(), path.drop_first());
        assert(fs.drop_first()[path.len() - 1] == fs[path.len() as int]);
    }
}

/// The position of a direction in the canonical try order UP, RIGHT,
/// DOWN, LEFT.
pub open spec fn dir_idx(d: Dir) -> int {
    match d {
        Dir::UP => 0,
        Dir::RIGHT => 1,
        Dir::DOWN => 2,
        Dir::LEFT => 3,
    }
}

/// Whether a frame's cursor has not yet passed direction `d`: an
/// exhausted frame allows nothing.
pub open spec fn cursor_allows(st: State, d: Dir) -> bool {
    rem_of(st) + dir_idx(d) >= 4
}

/// A gap path the bounded search is obliged to find: it applies, has
/// between one move and the bound, never immediately undoes a move,
/// ends at estimate 0, and every explored proper prefix stays within
/// the bound (prefix length plus the estimate of the reached state).
#[verifier::opaque]
pub open spec fn qualifying<H: Heuristic>(h: H, s0: Seq<u8>, q: Seq<Dir>, max_depth: int) -> bool {
    &&& apply_gap_path(s0, q) is Some
    &&& 1 <= q.len() <= max_depth
    &&& no_undo_pairs(q)
    &&& h.estimate(apply_gap_path(s0, q)->Some_0) == 0
    &&& forall|l: int|
        1 <= l < q.len() ==> l + h.estimate(
            apply_gap_path(s0, #[trigger] q.take(l))->Some_0,
        ) <= max_depth
}

/// The search still has path `q` ahead of it: at the frame where `q`
/// leaves the current stack path, the cursor has not yet passed `q`'s
/// next direction.
pub open spec fn stack_covers(ipath: Seq<Dir>, states: Seq<State>, q: Seq<Dir>) -> bool {
    exists|j: int|
        0 <= j <= ipath.len() && j < states.len() && j < q.len() && q.take(j) == ipath.take(j)
            && #[trigger] cursor_allows(states[j], q[j])
}

/// Raising the bound keeps every qualifying path qualifying.
pub proof fn lemma_qualifying_monotone<H: Heuristic>(
    h: H,
    s0: Seq<u8>,
    q: Seq<Dir>,
    b1: int,
    b2: int,
)
    requires
        qualifying(h, s0, q, b1),
        b1 <= b2,
    ensures
        qualifying(h, s0, q, b2),
{
    reveal(qualifying);
}

/// Popping an exhausted frame abandons no qualifying path: a path
/// covered only at the popped frame would need its exhausted cursor.
proof fn lemma_covers_pop<H: Heuristic>(
    h: H,
    s0: Seq<u8>,
    max_depth: int,
    ipath: Seq<Dir>,
    states: Seq<State>,
    new_ipath: Seq<Dir>,
)
    requires
        states.len() == ipath.len() + 1,
        states.last() == State::Done,
        new_ipath == (if ipath.len() == 0 {
            ipath
        } else {
            ipath.drop_last()
        }),
        forall|q: Seq<Dir>|
            qualifying(h, s0, q, max_depth) ==> #[trigger] stack_covers(ipath, states, q),
    ensures
        forall|q: Seq<Dir>|
            qualifying(h, s0, q, max_depth) ==> #[trigger] stack_covers(
                new_ipath,
                states.drop_last(),
                q,
            ),
{
    let t = ipath.len() as int;
    assert forall|q: Seq<Dir>| qualifying(h, s0, q, max_depth) implies #[trigger] stack_covers(
        new_ipath,
        states.drop_last(),
        q,
    ) by {
        assert(stack_covers(ipath, states, q));
        let j = choose|j: int|
            0 <= j <= ipath.len() && j < states.len() && j < q.len() && q.take(j) == ipath.take(j)
                && #[trigger] cursor_allows(states[j], q[j]);
        assert(j < t) by {
            if j == t {
                assert(states[t] == State::Done);
                assert(rem_of(State::Done) == 0);
            }
        }
        assert(states.drop_last()[j] == states[j]);
        assert(new_ipath.take(j) =~= ipath.take(j));
        assert(cursor_allows(states.drop_last()[j], q[j]));
    }
}

/// A path that continues the current one with a move the search skips
/// is not qualifying: the move immediately undoes the previous one, or
/// leaves the grid, or leads to a state whose bound is exceeded.
#[verifier::rlimit(100)]
proof fn lemma_skip_reason_disqualifies<H: Heuristic>(
    h: H,
    s0: Seq<u8>,
    max_depth: int,
    ipath: Seq<Dir>,
    top: Seq<u8>,
    d_cur: Dir,
    q: Seq<Dir>,
)
    requires
        apply_gap_path(s0, ipath) == Some(top),
        ipath.len() < q.len(),
        q.take(ipath.len() as int) == ipath,
        q[ipath.len() as int] == d_cur,
        (ipath.len() > 0 && ipath.last() == dir_inv_spec(d_cur)) || !gap_step_ok(top, d_cur) || (
        gap_step_ok(top, d_cur) && ipath.len() + 1 + h.estimate(gap_step(top, d_cur))
            > max_depth),
    ensures
        !qualifying(h, s0, q, max_depth),
{
    let t = ipath.len() as int;
    if qualifying(h, s0, q, max_depth) {
        reveal(qualifying);
        reveal(no_undo_pairs);
        if ipath.len() > 0 && ipath.last() == dir_inv_spec(d_cur) {
            assert(q[t - 1] == ipath[t - 1]) by {
                assert(q.take(t)[t - 1] == q[t - 1]);
            }
            assert(q[t] == dir_inv_spec(q[t - 1])) by {
                crate::cells::lemma_inv_involutive(q[t - 1]);
            }
            assert(false);
        } else if !gap_step_ok(top, d_cur) {
            lemma_apply_none(s0, ipath, q);
            assert(false);
        } else {
            lemma_apply_push(s0, ipath, d_cur);
            assert(q.take(t + 1) =~= ipath.push(d_cur));
            assert(apply_gap_path(s0, q.take(t + 1)) == Some(gap_step(top, d_cur)));
            if t + 1 < q.len() {
                assert(t + 1 + h.estimate(gap_step(top, d_cur)) <= max_depth);
            } else {
                assert(q.take(t + 1) =~= q);
                assert(h.estimate(gap_step(top, d_cur)) == 0);
                assert(t + 1 <= max_depth);
            }
            assert(false);
        }
    }
}

/// Skipping the cursor's direction abandons no qualifying path, when
/// that direction immediately undoes the previous move, or leaves the
/// grid, or leads to a state whose bound is exceeded: no qualifying
/// path continues the current one that way.
proof fn lemma_covers_skip<H: Heuristic>(
    h: H,
    s0: Seq<u8>,
    max_depth: int,
    ipath: Seq<Dir>,
    states: Seq<State>,
    st2: State,
    top: Seq<u8>,
    d_cur: Dir,
)
    requires
        states.len() == ipath.len() + 1,
        states.last() == State::Dir(d_cur),
        rem_of(st2) + 1 == rem_of(states.last()),
        apply_gap_path(s0, ipath) == Some(top),
        (ipath.len() > 0 && ipath.last() == dir_inv_spec(d_cur)) || !gap_step_ok(top, d_cur) || (
        gap_step_ok(top, d_cur) && ipath.len() + 1 + h.estimate(gap_step(top, d_cur))
            > max_depth),
        forall|q: Seq<Dir>|
            qualifying(h, s0, q, max_depth) ==> #[trigger] stack_covers(ipath, states, q),
    ensures
        forall|q: Seq<Dir>|
            qualifying(h, s0, q, max_depth) ==> #[trigger] stack_covers(
                ipath,
                states.update(states.len() - 1, st2),
                q,
            ),
{
    let t = ipath.len() as int;
    let states1 = states.update(t, st2);
    assert forall|q: Seq<Dir>| qualifying(h, s0, q, max_depth) implies #[trigger] stack_covers(
        ipath,
        states1,
        q,
    ) by {
        assert(stack_covers(ipath, states, q));
        let j = choose|j: int|
            0 <= j <= ipath.len() && j < states.len() && j < q.len() && q.take(j) == ipath.take(j)
                && #[trigger] cursor_allows(states[j], q[j]);
        if j < t {
            assert(states1[j] == states[j]);
            assert(cursor_allows(states1[j], q[j]));
        } else {
            assert(q.take(t) =~= ipath);
            if q[t] == d_cur {
                // the skip reason contradicts `q` being qualifying
                lemma_skip_reason_disqualifies(h, s0, max_depth, ipath, top, d_cur, q);
                assert(false);
            } else {
                assert(dir_idx(q[t]) != dir_idx(d_cur));
                assert(cursor_allows(st2, q[t]));
                assert(states1[t] == st2);
            }
        }
    }
}

/// Pushing the cursor's direction abandons no qualifying path: a path
/// that continues this way is now covered one frame deeper, under the
/// fresh cursor; any other stays covered where it was.
proof fn lemma_covers_push<H: Heuristic>(
    h: H,
    s0: Seq<u8>,
    max_depth: int,
    ipath: Seq<Dir>,
    states: Seq<State>,
    st2: State,
    top: Seq<u8>,
    d_cur: Dir,
)
    requires
        states.len() == ipath.len() + 1,
        states.last() == State::Dir(d_cur),
        rem_of(st2) + 1 == rem_of(states.last()),
        apply_gap_path(s0, ipath) == Some(top),
        gap_step_ok(top, d_cur),
        h.estimate(gap_step(top, d_cur)) != 0,
        forall|q: Seq<Dir>|
            qualifying(h, s0, q, max_depth) ==> #[trigger] stack_covers(ipath, states, q),
    ensures
        forall|q: Seq<Dir>|
            qualifying(h, s0, q, max_depth) ==> #[trigger] stack_covers(
                ipath.push(d_cur),
                states.update(states.len() - 1, st2).push(State::Dir(Dir::UP)),
                q,
            ),
{
    let t = ipath.len() as int;
    let ipath1 = ipath.push(d_cur);
    let states1 = states.update(t, st2).push(State::Dir(Dir::UP));
    assert forall|q: Seq<Dir>| qualifying(h, s0, q, max_depth) implies #[trigger] stack_covers(
        ipath1,
        states1,
        q,
    ) by {
        reveal(qualifying);
        assert(stack_covers(ipath, states, q));
        let j = choose|j: int|
            0 <= j <= ipath.len() && j < states.len() && j < q.len() && q.take(j) == ipath.take(j)
                && #[trigger] cursor_allows(states[j], q[j]);
        if j < t {
            assert(states1[j] == states[j]);
            assert(ipath1.take(j) =~= ipath.take(j));
            assert(cursor_allows(states1[j], q[j]));
        } else {
            assert(q.take(t) =~= ipath);
            if q[t] == d_cur {
                // `q` follows the pushed move: covered one frame deeper
                lemma_apply_push(s0, ipath, d_cur);
                assert(q.take(t + 1) =~= ipath1);
                assert(t + 1 < q.len()) by {
                    if t + 1 == q.len() {
                        assert(q.take(t + 1) =~= q);
                        assert(apply_gap_path(s0, q.take(t + 1)) == Some(gap_step(top, d_cur)));
                        assert(h.estimate(gap_step(top, d_cur)) == 0);
                    }
                }
                assert(states1[t + 1] == State::Dir(Dir::UP));
                assert(ipath1.take(t + 1) =~= ipath1);
                assert(cursor_allows(states1[t + 1], q[t + 1]));
            } else {
                assert(dir_idx(q[t]) != dir_idx(d_cur));
                assert(states1[t] == st2);
                assert(ipath1.take(t) =~= ipath);
                assert(cursor_allows(states1[t], q[t]));
            }
        }
    }
}

/// A puzzle paired with its cached gap cell, so that moves need no scan.
pub struct Puzzle24<G: Puzzle24Grid> {
    grid: G,
    gap_cell: PuzzleCell,
}

impl<G: Puzzle24Grid> View for Puzzle24<G> {
    type V = Seq<u8>;

    closed spec fn view(&self) -> Seq<u8> {
        self.grid@
    }
}

impl<G: Puzzle24Grid> Puzzle24<G> {
    /// The grid is a valid puzzle and the cached gap cell is its gap.
    pub closed spec fn wf(&self) -> bool {
        &&& puzzle_wf(self.grid@)
        &&& self.gap_cell@ == gap_of(self.grid@)
    }

    /// Wraps a valid grid, locating its gap once.
    pub fn new(grid: G) -> (r: Self)
        requires
            puzzle_wf(grid@),
        ensures
            r.wf(),
            r@ == grid@,
    {
        proof {
            reveal(puzzle_wf);
            lemma_gap_of(grid@);
        }
        let gap_cell = grid.find_gap();
        Puzzle24 { grid, gap_cell }
    }

    /// The wrapped grid.
    pub fn grid(&self) -> (g: &G)
        ensures
            g@ == self@,
    {
        &self.grid
    }

    /// Unwraps the grid.
    pub fn into_grid(self) -> (g: G)
        ensures
            g@ == self@,
    {
        self.grid
    }

    /// Moves the gap one step in `inv_dir` (the inverse of the direction
    /// the swapped tile moves), cloning the grid; `None` at the boundary.
    pub fn step_inv(&self, inv_dir: Dir) -> (r: Option<Self>)
        requires
            self.wf(),
        ensures
            match r {
                Some(p2) => gap_step_ok(self@, inv_dir) && p2@ == gap_step(self@, inv_dir)
                    && p2.wf(),
                None => !gap_step_ok(self@, inv_dir),
            },
    {
        proof {
            reveal(puzzle_wf);
            reveal(gap_step_ok);
            lemma_gap_of(self.grid@);
        }
        let adj_cell = match self.gap_cell.step(inv_dir) {
            Some(c) => c,
            None => {
                return None;
            },
        };
        // the tile we move into the gap
        let moved_tile = self.grid.get_tile(adj_cell);
        let mut new_grid = self.grid.clone_grid();
        new_grid.set_tile(self.gap_cell, moved_tile);
        new_grid.clear_cell(adj_cell);
        proof {
            reveal(gap_step);
            lemma_gap_step_wf(self.grid@, inv_dir);
            assert(new_grid@ =~= gap_step(self.grid@, inv_dir));
        }
        Some(Puzzle24 { grid: new_grid, gap_cell: adj_cell })
    }
}

/// The per-frame move cursor: the next direction to try, in the
/// canonical order UP, RIGHT, DOWN, LEFT, or `Done` when all four have
/// been tried.
#[derive(Clone, Copy, PartialEq, Eq, Structural, Debug)]
pub enum State {
    Dir(Dir),
    Done,
}

/// How many directions a frame with cursor `s` has still to try.
pub open spec fn rem_of(s: State) -> nat {
    match s {
        State::Dir(Dir::UP) => 4,
        State::Dir(Dir::RIGHT) => 3,
        State::Dir(Dir::DOWN) => 2,
        State::Dir(Dir::LEFT) => 1,
        State::Done => 0,
    }
}

impl State {
    /// A fresh cursor, before the first direction.
    pub fn new() -> (r: Self)
        ensures
            r == State::Dir(Dir::UP),
    {
        State::Dir(Dir::UP)
    }

    /// The cursor after the current direction has been tried.
    pub fn next(self) -> (r: Self)
        requires
            !(self is Done),
        ensures
            rem_of(r) + 1 == rem_of(self),
    {
        match self {
            State::Dir(Dir::UP) => State::Dir(Dir::RIGHT),
            State::Dir(Dir::RIGHT) => State::Dir(Dir::DOWN),
            State::Dir(Dir::DOWN) => State::Dir(Dir::LEFT),
            State::Dir(Dir::LEFT) => State::Done,
            State::Done => State::Done,
        }
    }
}

/// Powers of five, the weight base of the search's termination measure
/// (each frame can spawn at most four children, weighted one level down).
#[verifier::opaque]
pub open spec fn pow5(n: nat) -> nat
    decreases n,
{
    if n == 0 {
        1
    } else {
        5 * pow5((n - 1) as nat)
    }
}

proof fn lemma_pow5_pos(n: nat)
    ensures
        pow5(n) >= 1,
    decreases n,
{
    reveal(pow5);
    if n > 0 {
        lemma_pow5_pos((n - 1) as nat);
    }
}

/// The termination measure of the search loop: every frame's remaining
/// directions, weighted so that one try at depth `i` outweighs the whole
/// subtree it can spawn below. `b` bounds the stack length.
#[verifier::opaque]
pub open spec fn stack_measure(states: Seq<State>, b: nat) -> nat
    decreases states.len(),
{
    if states.len() == 0 {
        0
    } else {
        stack_measure(states.drop_last(), b) + rem_of(states.last()) * pow5(
            (b + 1 - states.len()) as nat,
        )
    }
}

/// Popping an exhausted frame keeps the measure unchanged.
proof fn lemma_measure_pop(states: Seq<State>, b: nat)
    requires
        states.len() >= 1,
        rem_of(states.last()) == 0,
    ensures
        stack_measure(states.drop_last(), b) == stack_measure(states, b),
{
    reveal(stack_measure);
}

/// Advancing the top frame's cursor strictly decreases the measure.
proof fn lemma_measure_advance(states: Seq<State>, b: nat, s2: State)
    requires
        1 <= states.len() <= b + 1,
        rem_of(s2) < rem_of(states.last()),
    ensures
        stack_measure(states.update(states.len() - 1, s2), b) < stack_measure(states, b),
{
    reveal(stack_measure);
    let n = states.len() as int;
    let u = states.update(n - 1, s2);
    assert(u.drop_last() =~= states.drop_last());
    assert(u.last() == s2);
    let p = pow5((b + 1 - n) as nat);
    lemma_pow5_pos((b + 1 - n) as nat);
    vstd::arithmetic::mul::lemma_mul_strict_inequality(
        rem_of(s2) as int,
        rem_of(states.last()) as int,
        p as int,
    );
    vstd::arithmetic::mul::lemma_mul_is_commutative(rem_of(s2) as int, p as int);
    vstd::arithmetic::mul::lemma_mul_is_commutative(rem_of(states.last()) as int, p as int);
}

/// Advancing the top frame's cursor and pushing a fresh child frame
/// still strictly decreases the measure: the try spent at the parent
/// outweighs the four tries gained at the child.
proof fn lemma_measure_advance_push(states: Seq<State>, b: nat, s2: State, child: State)
    requires
        1 <= states.len() <= b,
        rem_of(s2) + 1 == rem_of(states.last()),
        rem_of(child) == 4,
    ensures
        stack_measure(states.update(states.len() - 1, s2).push(child), b) < stack_measure(
            states,
            b,
        ),
{
    reveal(stack_measure);
    reveal(pow5);
    let n = states.len() as int;
    let u = states.update(n - 1, s2);
    let v = u.push(child);
    let m = (b - n) as nat;
    let p_child = pow5(m);
    let p_top = pow5((b + 1 - n) as nat);
    assert((b + 1 - n) as nat == m + 1);
    assert(p_top == 5 * p_child);
    lemma_pow5_pos(m);
    assert(v.drop_last() =~= u);
    assert(v.last() == child);
    assert(v.len() == n + 1);
    assert(u.drop_last() =~= states.drop_last());
    assert(u.last() == s2);
    let md = stack_measure(states.drop_last(), b);
    assert(stack_measure(u, b) == md + rem_of(s2) * p_top);
    assert((b + 1 - v.len()) as nat == m);
    assert(stack_measure(v, b) == stack_measure(u, b) + rem_of(child) * p_child);
    assert(stack_measure(states, b) == md + rem_of(states.last()) * p_top);
    // (rem(s2)+1)*p_top = rem(s2)*p_top + p_top, and 4*p_child < 5*p_child = p_top
    vstd::arithmetic::mul::lemma_mul_is_distributive_add_other_way(
        p_top as int,
        rem_of(s2) as int,
        1,
    );
    assert(rem_of(states.last()) * p_top == rem_of(s2) * p_top + p_top);
    assert(rem_of(child) * p_child == 4 * p_child);
    assert(4 * p_child < p_top);
}

/// The reusable explicit stack of the depth-first search.
///
/// The frame stack always holds one more entry than the path: the root
/// frame is reached by no move. `inv_path` records, for each depth, the
/// direction the gap moved to reach it (the inverse of the tile's move).
pub struct DfsStack<G: Puzzle24Grid> {
    frames: Vec<Puzzle24<G>>,
    states: Vec<State>,
    inv_path: Vec<Dir>,
}

impl<G: Puzzle24Grid> DfsStack<G> {
    /// The flat views of the stacked puzzle states, bottom first.
    pub closed spec fn spec_frames(&self) -> Seq<Seq<u8>> {
        Seq::new(self.frames@.len(), |i: int| self.frames@[i]@)
    }

    /// The gap moves taken from the root to the top frame.
    pub closed spec fn spec_path(&self) -> Seq<Dir> {
        self.inv_path@
    }

    /// The number of stacked frames.
    pub closed spec fn spec_len(&self) -> nat {
        self.frames@.len()
    }

    /// An empty stack, pre-sized for the deepest possible search (no
    /// 24-puzzle solution needs more than 255 moves).
    pub fn uninit() -> (r: Self)
        ensures
            r.spec_len() == 0,
            r.spec_path().len() == 0,
    {
        DfsStack {
            frames: Vec::with_capacity(256),
            states: Vec::with_capacity(256),
            inv_path: Vec::with_capacity(255),
        }
    }

    /// The recorded gap moves, bottom first.
    pub fn inv_path(&self) -> (r: &[Dir])
        ensures
            r@ == self.spec_path(),
    {
        self.inv_path.as_slice()
    }

    /// Clears the stack and places one root frame with a fresh cursor.
    pub fn init(&mut self, frame_puzzle: Puzzle24<G>)
        ensures
            final(self).spec_len() == 1,
            final(self).spec_frames() =~= seq![frame_puzzle@],
            final(self).spec_path().len() == 0,
    {
        self.frames.clear();
        self.states.clear();
        self.inv_path.clear();
        self.frames.push(frame_puzzle);
        self.states.push(State::new());
    }

    /// The gap move that created the top frame, or `None` at the root.
    pub fn top_dir(&self) -> (r: Option<Dir>)
        ensures
            r == (if self.spec_path().len() == 0 {
                None::<Dir>
            } else {
                Some(self.spec_path().last())
            }),
    {
        if self.inv_path.is_empty() {
            None
        } else {
            Some(self.inv_path[self.inv_path.len() - 1])
        }
    }

    /// Pushes a frame reached by gap move `inv_dir`, with a fresh cursor.
    pub fn push_unchecked(&mut self, inv_dir: Dir, p: Puzzle24<G>)
        requires
            old(self).spec_len() > 0,
        ensures
            final(self).spec_len() == old(self).spec_len() + 1,
            final(self).spec_frames() =~= old(self).spec_frames().push(p@),
            final(self).spec_path() =~= old(self).spec_path().push(inv_dir),
    {
        self.frames.push(p);
        self.states.push(State::new());
        self.inv_path.push(inv_dir);
    }

    /// Pops the top frame and the move that reached it (the root frame
    /// has no such move).
    pub fn pop(&mut self)
        requires
            old(self).spec_len() > 0,
        ensures
            final(self).spec_len() == old(self).spec_len() - 1,
            final(self).spec_frames() =~= old(self).spec_frames().drop_last(),
            final(self).spec_path() =~= (if old(self).spec_path().len() == 0 {
                old(self).spec_path()
            } else {
                old(self).spec_path().drop_last()
            }),
    {
        self.inv_path.pop();
        self.frames.pop();
        self.states.pop();
    }
}

/// One bounded depth-first pass: explores all paths whose estimated
/// total length stays within `max_depth`, and reports whether a state
/// with estimate 0 was reached, together with the number of expanded
/// nodes. On success the stack's recorded gap moves lead from `p` to
/// that state and never immediately undo a move.
#[verifier::rlimit(100)]
pub fn solve_dfs_state<H: Heuristic, G: Puzzle24Grid>(
    stack: &mut DfsStack<G>,
    h: &H,
    p: G,
    max_depth: u8,
) -> (r: (bool, usize))
    requires
        h.valid(),
        puzzle_wf(p@),
    ensures
        r.0 ==> ({
            let gpath = final(stack).spec_path();
            &&& 1 <= gpath.len() <= max_depth
            &&& no_undo_pairs(gpath)
            &&& apply_gap_path(p@, gpath) is Some
            &&& h.estimate(apply_gap_path(p@, gpath)->Some_0) == 0
            &&& puzzle_wf(apply_gap_path(p@, gpath)->Some_0)
        }),
        !r.0 ==> forall|q: Seq<Dir>| !qualifying(*h, p@, q, max_depth as int),
{
    let mut num_steps: usize = 0;
    let root = Puzzle24::new(p);
    stack.frames.clear();
    stack.states.clear();
    stack.inv_path.clear();
    stack.frames.push(root);
    stack.states.push(State::new());
    proof {
        reveal(no_undo_pairs);
        assert forall|q: Seq<Dir>|
            qualifying(*h, p@, q, max_depth as int) implies #[trigger] stack_covers(
            stack.inv_path@,
            stack.states@,
            q,
        ) by {
            reveal(qualifying);
            assert(stack.states@[0] == State::Dir(Dir::UP));
            assert(cursor_allows(stack.states@[0], q[0]));
            assert(q.take(0) =~= stack.inv_path@.take(0));
        }
    }
    let ghost b: nat = (max_depth + 1) as nat;
    while stack.frames.len() > 0
        invariant
            h.valid(),
            stack.frames@.len() == stack.states@.len(),
            stack.frames@.len() > 0 ==> stack.frames@.len() == stack.inv_path@.len() + 1,
            stack.frames@.len() == 0 ==> stack.inv_path@.len() == 0,
            stack.inv_path@.len() <= max_depth,
            b == max_depth + 1,
            stack.frames@.len() > 0 ==> stack.frames@[0]@ == p@,
            forall|i: int| 0 <= i < stack.frames@.len() ==> (#[trigger] stack.frames@[i]).wf(),
            forall|i: int|
                0 <= i < stack.inv_path@.len() ==> gap_step_ok(
                    stack.frames@[i]@,
                    #[trigger] stack.inv_path@[i],
                ) && stack.frames@[i + 1]@ == gap_step(stack.frames@[i]@, stack.inv_path@[i]),
            no_undo_pairs(stack.inv_path@),
            forall|q: Seq<Dir>|
                qualifying(*h, p@, q, max_depth as int) ==> #[trigger] stack_covers(
                    stack.inv_path@,
                    stack.states@,
                    q,
                ),
        decreases stack_measure(stack.states@, b), stack.frames@.len(),
    {
        let top = stack.frames.len() - 1;
        let st = stack.states[top];
        let ghost states0 = stack.states@;
        match st {
            State::Done => {
                // this frame is exhausted: backtrack
                proof {
                    lemma_measure_pop(states0, b);
                }
                let ghost path0 = stack.inv_path@;
                stack.inv_path.pop();
                stack.frames.pop();
                stack.states.pop();
                proof {
                    assert(stack.states@ =~= states0.drop_last());
                    assert(stack_measure(stack.states@, b) == stack_measure(states0, b));
                    if path0.len() > 0 {
                        lemma_no_undo_drop(path0);
                        assert(stack.inv_path@ =~= path0.drop_last());
                    }
                    lemma_covers_pop(*h, p@, max_depth as int, path0, states0, stack.inv_path@);
                }
            },
            State::Dir(next_dir) => {
                let ghost top_view = stack.frames@[top as int]@;
                let st2 = st.next();
                proof {
                    lemma_measure_advance(states0, b, st2);
                    let ghost fs = Seq::new(stack.frames@.len(), |i: int| stack.frames@[i]@);
                    lemma_chain_apply(fs, stack.inv_path@);
                    assert(apply_gap_path(p@, stack.inv_path@) == Some(top_view));
                }
                stack.states[top] = st2;
                proof {
                    assert(stack.states@ =~= states0.update(top as int, st2));
                    assert(stack_measure(stack.states@, b) < stack_measure(states0, b));
                }
                // no need to go back to the state from which we just came
                let undo = match stack.top_dir() {
                    Some(pd) => pd == next_dir.inv(),
                    None => false,
                };
                if undo {
                    proof {
                        lemma_covers_skip(
                            *h,
                            p@,
                            max_depth as int,
                            stack.inv_path@,
                            states0,
                            st2,
                            top_view,
                            next_dir,
                        );
                    }
                    continue ;
                }
                proof {
                    if stack.inv_path@.len() > 0 {
                        assert(stack.inv_path@.last() != dir_inv_spec(next_dir));
                    }
                }
                let next = {
                    let fr: &Puzzle24<G> = &stack.frames[top];
                    fr.step_inv(next_dir)
                };
                if let Some(next_p) = next {
                    num_steps = if num_steps < usize::MAX {
                        num_steps + 1
                    } else {
                        num_steps
                    };
                    // the path length with `next_dir` added
                    let fx = stack.inv_path.len() + 1;
                    // a lower bound on the remaining distance
                    let hx = h.compute(next_p.grid());
                    // a lower bound on the total path length
                    let gx = fx + (hx as usize);
                    if gx <= (max_depth as usize) {
                        proof {
                            lemma_measure_advance_push(states0, b, st2, State::Dir(Dir::UP));
                        }
                        let ghost path0 = stack.inv_path@;
                        stack.frames.push(next_p);
                        stack.states.push(State::new());
                        stack.inv_path.push(next_dir);
                        proof {
                            lemma_no_undo_push(path0, next_dir);
                            assert(stack.states@ =~= states0.update(top as int, st2).push(
                                State::Dir(Dir::UP),
                            ));
                            assert(stack_measure(stack.states@, b) < stack_measure(states0, b));
                        }
                        if hx == 0 {
                            // estimate 0: the search recognises the goal
                            proof {
                                let ghost fs = Seq::new(
                                    stack.frames@.len(),
                                    |i: int| stack.frames@[i]@,
                                );
                                lemma_chain_apply(fs, stack.inv_path@);
                            }
                            return (true, num_steps);
                        }
                        proof {
                            lemma_covers_push(
                                *h,
                                p@,
                                max_depth as int,
                                path0,
                                states0,
                                st2,
                                top_view,
                                next_dir,
                            );
                        }
                    } else {
                        proof {
                            lemma_covers_skip(
                                *h,
                                p@,
                                max_depth as int,
                                stack.inv_path@,
                                states0,
                                st2,
                                top_view,
                                next_dir,
                            );
                        }
                    }
                } else {
                    proof {
                        lemma_covers_skip(
                            *h,
                            p@,
                            max_depth as int,
                            stack.inv_path@,
                            states0,
                            st2,
                            top_view,
                            next_dir,
                        );
                    }
                }
            },
        }
    }
    proof {
        assert forall|q: Seq<Dir>| !qualifying(*h, p@, q, max_depth as int) by {
            if qualifying(*h, p@, q, max_depth as int) {
                assert(stack_covers(stack.inv_path@, stack.states@, q));
                let j = choose|j: int|
                    0 <= j <= stack.inv_path@.len() && j < stack.states@.len() && j < q.len()
                        && q.take(j) == stack.inv_path@.take(j) && #[trigger] cursor_allows(
                        stack.states@[j],
                        q[j],
                    );
                assert(false);
            }
        }
    }
    (false, num_steps)
}

/// A path stays undo-free when a move is appended that does not undo
/// its last move.
#[verifier::rlimit(50)]
proof fn lemma_no_undo_push(path: Seq<Dir>, d: Dir)
    requires
        no_undo_pairs(path),
        path.len() > 0 ==> path.last() != dir_inv_spec(d),
    ensures
        no_undo_pairs(path.push(d)),
{
    reveal(no_undo_pairs);
    let q = path.push(d);
    assert forall|i: int| 0 <= i < q.len() - 1 implies q[i + 1] != dir_inv_spec(#[trigger] q[i]) by {
        if i < path.len() - 1 {
            assert(q[i] == path[i]);
            assert(q[i + 1] == path[i + 1]);
        } else {
            assert(q[i] == path.last());
            assert(q[i + 1] == d);
        }
    }
}

/// A prefix of an undo-free path is undo-free.
proof fn lemma_no_undo_drop(path: Seq<Dir>)
    requires
        no_undo_pairs(path),
        path.len() > 0,
    ensures
        no_undo_pairs(path.drop_last()),
{
    reveal(no_undo_pairs);
    let q = path.drop_last();
    assert forall|i: int| 0 <= i < q.len() - 1 implies q[i + 1] != dir_inv_spec(#[trigger] q[i]) by {
        assert(q[i] == path[i]);
        assert(q[i + 1] == path[i + 1]);
    }
}

/// Inverting every direction twice gives the path back.
proof fn lemma_invert_involution(path: Seq<Dir>)
    ensures
        invert_dirs(invert_dirs(path)) =~= path,
{
    let q = invert_dirs(invert_dirs(path));
    assert forall|i: int| 0 <= i < path.len() implies q[i] == path[i] by {
        assert(invert_dirs(path)[i] == dir_inv_spec(path[i]));
    }
}

/// Inverting every direction preserves the no-immediate-undo property.
pub proof fn lemma_no_undo_invert(path: Seq<Dir>)
    requires
        no_undo_pairs(path),
    ensures
        no_undo_pairs(invert_dirs(path)),
{
    reveal(no_undo_pairs);
    let q = invert_dirs(path);
    assert forall|i: int| 0 <= i < q.len() - 1 implies q[i + 1] != dir_inv_spec(#[trigger] q[i]) by {
        assert(q[i] == dir_inv_spec(path[i]));
        assert(q[i + 1] == dir_inv_spec(path[i + 1]));
        assert(path[i + 1] != dir_inv_spec(path[i]));
    }
}

/// Each direction of the recorded gap path, inverted: the directions the
/// tiles move, in order.
fn invert_path(dirs: &Vec<Dir>) -> (r: Vec<Dir>)
    ensures
        r@ =~= invert_dirs(dirs@),
{
    let mut out: Vec<Dir> = Vec::with_capacity(dirs.len());
    let mut i: usize = 0;
    while i < dirs.len()
        invariant
            i <= dirs@.len(),
            out@.len() == i,
            forall|j: int| 0 <= j < i ==> out@[j] == dir_inv_spec(dirs@[j]),
        decreases dirs@.len() - i,
    {
        out.push(dirs[i].inv());
        i += 1;
    }
    out
}

/// One bounded depth-first search round: explores every path whose
/// estimated total cost stays within `max_depth` and reports the number
/// of expanded nodes, together with the tile moves of a solution path if
/// one was found. A returned path never exceeds `max_depth` moves, never
/// immediately undoes a move, applies validly to `p`, and ends in a
/// state the heuristic estimates at 0.
pub fn solve_dfs<H: Heuristic, G: Puzzle24Grid>(h: &H, p: G, max_depth: u8) -> (r: (
    usize,
    Option<Vec<Dir>>,
))
    requires
        h.valid(),
        puzzle_wf(p@),
    ensures
        match r.1 {
            Some(path) => {
                &&& 1 <= path.len() <= max_depth
                &&& no_undo_pairs(path@)
                &&& apply_tile_path(p@, path@) is Some
                &&& h.estimate(apply_tile_path(p@, path@)->Some_0) == 0
                &&& puzzle_wf(apply_tile_path(p@, path@)->Some_0)
            },
            None => true,
        },
        r.1 is None ==> forall|q: Seq<Dir>| !qualifying(*h, p@, q, max_depth as int),
{
    let ghost orig = p@;
    let mut stack = DfsStack::uninit();
    let (is_solved, num_steps) = solve_dfs_state(&mut stack, h, p, max_depth);
    if is_solved {
        let path = invert_path(&stack.inv_path);
        proof {
            lemma_invert_involution(stack.inv_path@);
            assert(invert_dirs(path@) == stack.inv_path@);
            lemma_no_undo_invert(stack.inv_path@);
        }
        (num_steps, Some(path))
    } else {
        (num_steps, None)
    }
}

/// Iterative deepening around the bounded search: the depth bound starts
/// at 1 and rises by 2 each round, since bound and solution length share
/// the initial estimate's parity; the node counts of all rounds are
/// summed. Returns `None` only if no round up to the documented 255-move
/// ceiling succeeds.
fn solve_ita_state<H: Heuristic, G: Puzzle24Grid>(stack: &mut DfsStack<G>, h: &H, p: G) -> (r:
    Option<usize>)
    requires
        h.valid(),
        puzzle_wf(p@),
    ensures
        match r {
            Some(_) => {
                let gpath = final(stack).spec_path();
                &&& gpath.len() <= 255
                &&& no_undo_pairs(gpath)
                &&& apply_gap_path(p@, gpath) is Some
                &&& h.estimate(apply_gap_path(p@, gpath)->Some_0) == 0
                &&& puzzle_wf(apply_gap_path(p@, gpath)->Some_0)
            },
            None => true,
        },
        r is None ==> forall|q: Seq<Dir>| !qualifying(*h, p@, q, 255),
        r is Some ==> forall|q: Seq<Dir>|
            !(#[trigger] qualifying(*h, p@, q, final(stack).spec_path().len() as int - 2)),
{
    let mut num_steps_total: usize = 0;
    let mut max_depth: u8 = 1;
    loop
        invariant
            h.valid(),
            puzzle_wf(p@),
            1 <= max_depth <= 255,
            max_depth % 2 == 1,
            max_depth >= 3 ==> forall|q: Seq<Dir>|
                !(#[trigger] qualifying(*h, p@, q, max_depth as int - 2)),
        decreases 255 - max_depth as int,
    {
        let (is_solved, num_steps) = solve_dfs_state(stack, h, p.clone_grid(), max_depth);
        num_steps_total = if num_steps_total <= usize::MAX - num_steps {
            num_steps_total + num_steps
        } else {
            usize::MAX
        };
        if is_solved {
            proof {
                // no earlier round found anything, so nothing qualifies
                // at a bound two below the answer's length
                let ghost len = stack.spec_path().len() as int;
                assert forall|q: Seq<Dir>| !(#[trigger] qualifying(*h, p@, q, len - 2)) by {
                    if qualifying(*h, p@, q, len - 2) {
                        if max_depth >= 3 {
                            lemma_qualifying_monotone(*h, p@, q, len - 2, max_depth as int - 2);
                        } else {
                            reveal(qualifying);
                        }
                    }
                }
            }
            return Some(num_steps_total);
        }
        if max_depth >= 254 {
            return None;
        }
        max_depth += 2;
    }
}

/// Solves the puzzle optimally under an admissible heuristic: repeated
/// bounded searches with a rising bound, returning the cumulative
/// node-expansion count and the solution as tile moves. An input the
/// heuristic already estimates at 0 is answered with the empty path.
/// The returned path applies validly to `p`, never immediately undoes a
/// move, and ends in a state the heuristic estimates at 0; moreover no
/// qualifying path two or more moves shorter exists (the earlier rounds
/// exhausted them), which under an admissible heuristic pins the answer
/// to within one move of optimal — and to optimal itself, since all
/// solutions of one instance share one length parity (each move swaps
/// one tile pair; the parity step is stated here in words, not
/// machine-checked). `None` comes only when no qualifying path exists
/// up to the documented 255-move ceiling. The node count is diagnostic:
/// successors generated, summed over rounds, not fixed by the contract.
pub fn solve_ita<H: Heuristic, G: Puzzle24Grid>(h: &H, p: G) -> (r: Option<(usize, Vec<Dir>)>)
    requires
        h.valid(),
        puzzle_wf(p@),
    ensures
        match r {
            Some(pair) => {
                &&& pair.1@.len() <= 255
                &&& no_undo_pairs(pair.1@)
                &&& apply_tile_path(p@, pair.1@) is Some
                &&& h.estimate(apply_tile_path(p@, pair.1@)->Some_0) == 0
                &&& puzzle_wf(apply_tile_path(p@, pair.1@)->Some_0)
            },
            None => true,
        },
        h.estimate(p@) == 0 ==> r is Some,
        r is None ==> forall|q: Seq<Dir>| !qualifying(*h, p@, q, 255),
        match r {
            Some(pair) => forall|q: Seq<Dir>|
                !(#[trigger] qualifying(*h, p@, q, pair.1@.len() as int - 2)),
            None => true,
        },
{
    // the bounded rounds check only states reached by a move, so answer
    // an already-reached goal here with the empty path
    if h.compute(&p) == 0 {
        let path: Vec<Dir> = Vec::new();
        proof {
            reveal(no_undo_pairs);
            assert(invert_dirs(path@) =~= Seq::<Dir>::empty());
            assert(apply_tile_path(p@, path@) == Some(p@));
            assert forall|q: Seq<Dir>| !(#[trigger] qualifying(
                *h,
                p@,
                q,
                path@.len() as int - 2,
            )) by {
                reveal(qualifying);
            }
        }
        return Some((0, path));
    }
    let mut stack = DfsStack::uninit();
    match solve_ita_state(&mut stack, h, p) {
        Some(num_steps) => {
            let path = invert_path(&stack.inv_path);
            proof {
                lemma_invert_involution(stack.inv_path@);
                assert(invert_dirs(path@) == stack.inv_path@);
                lemma_no_undo_invert(stack.inv_path@);
            }
            Some((num_steps, path))
        },
        None => None,
    }
}

/// Applies a sequence of tile moves to a grid, returning the resulting
/// grid, or `None` as soon as a move is impossible. Useful to check that
/// a solver's answer actually transforms the start state into the goal.
pub fn apply_tile_moves<G: Puzzle24Grid>(g: G, path: &Vec<Dir>) -> (r: Option<G>)
    requires
        puzzle_wf(g@),
    ensures
        match r {
            Some(g2) => apply_tile_path(g@, path@) == Some(g2@) && puzzle_wf(g2@),
            None => apply_tile_path(g@, path@) is None,
        },
{
    let ghost orig = g@;
    let mut cur = Puzzle24::new(g);
    let mut i: usize = 0;
    while i < path.len()
        invariant
            i <= path@.len(),
            cur.wf(),
            orig == g@,
            apply_gap_path(orig, invert_dirs(path@.take(i as int))) == Some(cur@),
            puzzle_wf(orig),
        decreases path@.len() - i,
    {
        let d = path[i];
        let next = cur.step_inv(d.inv());
        proof {
            assert(invert_dirs(path@.take(i as int)).push(dir_inv_spec(d)) =~= invert_dirs(
                path@.take(i + 1),
            ));
        }
        match next {
            Some(p2) => {
                proof {
                    lemma_apply_push(orig, invert_dirs(path@.take(i as int)), dir_inv_spec(d));
                }
                cur = p2;
            },
            None => {
                proof {
                    assert(invert_dirs(path@.take(i as int)) =~= invert_dirs(path@).take(
                        i as int,
                    ));
                    assert(invert_dirs(path@)[i as int] == dir_inv_spec(d));
                    lemma_apply_none(orig, invert_dirs(path@.take(i as int)), invert_dirs(path@));
                }
                return None;
            },
        }
        i += 1;
    }
    proof {
        assert(path@.take(path@.len() as int) =~= path@);
    }
    Some(cur.into_grid())
}

/// A path whose application already fails at some prefix fails as a
/// whole.
proof fn lemma_apply_none(s: Seq<u8>, pre: Seq<Dir>, whole: Seq<Dir>)
    requires
        pre.len() < whole.len(),
        pre =~= whole.take(pre.len() as int),
        apply_gap_path(s, pre) is Some,
        !gap_step_ok(apply_gap_path(s, pre)->Some_0, whole[pre.len() as int]),
    ensures
        apply_gap_path(s, whole) is None,
    decreases pre.len(),
{
    if pre.len() == 0 {
        assert(!gap_step_ok(s, whole[0]));
    } else {
        assert(whole[0] == pre[0]);
        assert(pre.drop_first() =~= whole.drop_first().take(pre.len() - 1));
        assert(whole.drop_first()[pre.len() - 1] == whole[pre.len() as int]);
        lemma_apply_none(gap_step(s, pre[0]), pre.drop_first(), whole.drop_first());
    }
}

} // verus!
