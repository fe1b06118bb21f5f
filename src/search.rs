use vstd::prelude::*;
use crate::grid::{
    Cell, CellView, GridView, clone_cell, clone_sudoku_grid, complete, conflict_free, grid_view,
    in_range, lemma_shaped, peers, placeable, row_view, same_values, shaped, wf_grid,
};
use crate::check::is_valid_cell_value;

verus! {

/// How a search ended.
#[derive(Debug, Clone, Copy, PartialEq, Eq, Structural)]
pub enum SearchOutcome {
    /// Every square holds a value.
    Solved,
    /// The first square the search fills ran out of candidates: the values
    /// are back to those the search started from.
    Exhausted,
    /// More than `DEAD_END_CAP` dead ends in a row since the last successful
    /// placement. Each dead end in such a run takes one square off the trail,
    /// which never holds more than 81, so a search does not end this way.
    Abandoned,
}

/// The most dead ends in a row that the search tolerates.
pub const DEAD_END_CAP: u32 = 9999;

/// The cell at row-major position `p` (`0..81`).
pub open spec fn at(g: GridView, p: int) -> CellView {
    g[p / 9][p % 9]
}

/// A square the search fills: it was unassigned when the search began.
pub open spec fn free(init: GridView, p: int) -> bool {
    at(init, p).value == 0
}

/// The free squares before position `n`, in increasing order.
pub open spec fn free_before(init: GridView, n: int) -> Seq<usize>
    decreases n,
{
    if n <= 0 {
        Seq::empty()
    } else if free(init, n - 1) {
        free_before(init, n - 1).push((n - 1) as usize)
    } else {
        free_before(init, n - 1)
    }
}

/// What the search has consumed at position `q`: for a filled free square
/// before the cursor, its candidate index; at the cursor, the next index to try.
pub open spec fn progress_digit(init: GridView, g: GridView, cur: int, bt: bool, q: int) -> int {
    if free(init, q) && q <= cur {
        let d = at(g, q).candidate_index + if q == cur && bt { 1int } else { 0int };
        if d > 10 { 10 } else { d }
    } else {
        0
    }
}

pub open spec fn progress_digits(init: GridView, g: GridView, cur: int, bt: bool) -> Seq<int> {
    Seq::new(81, |q: int| progress_digit(init, g, cur, bt, q))
}

/// The digits `s[0..n]` read as a number in base eleven.
pub open spec fn horner(s: Seq<int>, n: nat) -> int
    decreases n,
{
    if n == 0 {
        0
    } else {
        11 * horner(s, (n - 1) as nat) + s[n - 1]
    }
}

pub open spec fn pow11(n: nat) -> int
    decreases n,
{
    if n == 0 {
        1
    } else {
        11 * pow11((n - 1) as nat)
    }
}

pub open spec fn digits_ok(s: Seq<int>) -> bool {
    forall|i: int| 0 <= i < s.len() ==> 0 <= #[trigger] s[i] <= 10
}

/// How far the search has got: it grows at every step.
pub open spec fn search_measure(init: GridView, g: GridView, cur: int, bt: bool) -> int {
    82 * horner(progress_digits(init, g, cur, bt), 81) + cur
}

proof fn lemma_horner_bound(s: Seq<int>, n: nat)
    requires
        n <= s.len(),
        digits_ok(s),
    ensures
        0 <= horner(s, n) <= pow11(n) - 1,
    decreases n,
{
    if n > 0 {
        lemma_horner_bound(s, (n - 1) as nat);
    }
}

proof fn lemma_horner_mono(s: Seq<int>, t: Seq<int>, n: nat)
    requires
        n <= s.len(),
        n <= t.len(),
        forall|i: int| 0 <= i < n ==> s[i] <= t[i],
    ensures
        horner(s, n) <= horner(t, n),
    decreases n,
{
    if n > 0 {
        lemma_horner_mono(s, t, (n - 1) as nat);
    }
}

proof fn lemma_horner_lex(s: Seq<int>, t: Seq<int>, p: int, n: nat)
    requires
        0 <= p < n,
        n <= s.len(),
        n <= t.len(),
        digits_ok(s),
        digits_ok(t),
        forall|i: int| 0 <= i < p ==> s[i] == t[i],
        s[p] < t[p],
    ensures
        horner(s, n) + 1 <= horner(t, n),
    decreases n,
{
    if n == p + 1 {
        lemma_horner_mono(s, t, p as nat);
        lemma_horner_mono(t, s, p as nat);
    } else {
        lemma_horner_lex(s, t, p, (n - 1) as nat);
    }
}

proof fn lemma_free_before_facts(init: GridView, n: int)
    requires
        0 <= n <= 81,
    ensures
        free_before(init, n).len() <= n,
        forall|i: int| 0 <= i < free_before(init, n).len() ==> {
            let q = #[trigger] free_before(init, n)[i];
            q < n && free(init, q as int)
        },
        free_before(init, n).len() == 0 ==> forall|q: int| 0 <= q < n ==> !free(init, q),
        free_before(init, n).len() > 0 ==> {
            let p = free_before(init, n).last() as int;
            &&& p < n
            &&& free(init, p)
            &&& free_before(init, n).drop_last() == free_before(init, p)
            &&& forall|q: int| p < q < n ==> !free(init, q)
        },
    decreases n,
{
    if n > 0 {
        lemma_free_before_facts(init, n - 1);
        let prev = free_before(init, n - 1);
        if free(init, n - 1) {
            assert(free_before(init, n) == prev.push((n - 1) as usize));
            assert(free_before(init, n).drop_last() =~= prev);
            assert forall|i: int| 0 <= i < free_before(init, n).len() implies {
                let q = #[trigger] free_before(init, n)[i];
                q < n && free(init, q as int)
            } by {
                if i < prev.len() {
                    assert(free_before(init, n)[i] == prev[i]);
                }
            }
        } else {
            assert(free_before(init, n) == prev);
        }
    }
}

/// Writes the outcome of one placement at `(x, y)`.
fn set_cell(g: &mut Vec<Vec<Cell>>, x: usize, y: usize, value: u8, index: usize)
    requires
        shaped(old(g)@),
        x < 9,
        y < 9,
    ensures
        shaped(final(g)@),
        grid_view(final(g)@) == grid_view(old(g)@).update(
            y as int,
            grid_view(old(g)@)[y as int].update(
                x as int,
                CellView { value, candidate_index: index, ..grid_view(old(g)@)[y as int][x as int] },
            ),
        ),
{
    g[y][x].value = value;
    g[y][x].candidate_index = index;
    assert(row_view(g@[y as int]) =~= grid_view(old(g)@)[y as int].update(
        x as int,
        CellView { value, candidate_index: index, ..grid_view(old(g)@)[y as int][x as int] },
    ));
    assert(grid_view(g@) =~= grid_view(old(g)@).update(
        y as int,
        grid_view(old(g)@)[y as int].update(
            x as int,
            CellView { value, candidate_index: index, ..grid_view(old(g)@)[y as int][x as int] },
        ),
    ));
}

/// What the search leaves alone: coordinates, candidates, and the values of
/// the squares that were assigned before it began.
pub open spec fn search_keeps(init: GridView, g: GridView) -> bool {
    forall|x: int, y: int| in_range(x) && in_range(y) ==> {
        &&& #[trigger] g[y][x].candidates == init[y][x].candidates
        &&& (init[y][x].value != 0 ==> g[y][x].value == init[y][x].value)
    }
}

/// Every square the search filled holds the candidate its index points at.
pub open spec fn filled_from_candidates(init: GridView, g: GridView) -> bool {
    forall|x: int, y: int|
        in_range(x) && in_range(y) && init[y][x].value == 0 && #[trigger] g[y][x].value != 0
            ==> g[y][x].candidate_index < g[y][x].candidates.len()
                && g[y][x].value == g[y][x].candidates[g[y][x].candidate_index as int]
}

/// The value that a choice of candidate indices gives square `q`: a free
/// square takes its chosen candidate, any other keeps its starting value.
pub open spec fn choice_value(init: GridView, sol: Seq<int>, q: int) -> u8 {
    if free(init, q) {
        at(init, q).candidates[sol[q]]
    } else {
        at(init, q).value
    }
}

/// A way to fill every free square with one of its own candidates so that no
/// two peers hold the same value.
pub open spec fn is_completion(init: GridView, sol: Seq<int>) -> bool {
    &&& sol.len() == 81
    &&& forall|q: int| 0 <= q < 81 && free(init, q) ==> 0 <= #[trigger] sol[q] < at(init, q).candidates.len()
    &&& forall|q1: int, q2: int|
        0 <= q1 < 81 && 0 <= q2 < 81 && peers(q1 % 9, q1 / 9, q2 % 9, q2 / 9) ==> #[trigger] choice_value(
            init,
            sol,
            q1,
        ) != #[trigger] choice_value(init, sol, q2)
}

/// Every free square starts its candidate scan at the first candidate.
pub open spec fn starts_fresh(init: GridView) -> bool {
    forall|q: int| 0 <= q < 81 && free(init, q) ==> #[trigger] at(init, q).candidate_index == 0
}

/// The choice `sol` lies before what the search has already ruled out: on the
/// free squares before some free square `q` at or before the cursor it agrees
/// with the candidates placed, and at `q` it picks an index already passed.
pub open spec fn passed_over(init: GridView, g: GridView, cur: int, bt: bool, sol: Seq<int>) -> bool {
    exists|q: int|
        0 <= q <= cur && q < 81 && free(init, q) && (forall|q2: int|
            0 <= q2 < q && free(init, q2) ==> sol[q2] == at(g, q2).candidate_index) && #[trigger] sol[q]
            < at(g, q).candidate_index + if q == cur && bt {
            1int
        } else {
            0int
        }
}

proof fn lemma_rejected_value_conflicts(init: GridView, g: GridView, cur: int, sol: Seq<int>)
    requires
        wf_grid(init),
        wf_grid(g),
        0 <= cur < 81,
        free(init, cur),
        sol.len() == 81,
        0 <= sol[cur] < at(init, cur).candidates.len(),
        search_keeps(init, g),
        forall|q: int|
            0 <= q < cur && free(init, q) ==> sol[q] == #[trigger] at(g, q).candidate_index && at(g, q).value
                == at(g, q).candidates[at(g, q).candidate_index as int],
        forall|q: int| cur < q < 81 && free(init, q) ==> #[trigger] at(g, q).value == 0,
        !placeable(g, cur % 9, cur / 9, choice_value(init, sol, cur)),
    ensures
        !is_completion(init, sol),
{
    let v = choice_value(init, sol, cur);
    assert(at(init, cur) == init[cur / 9][cur % 9]);
    assert(1 <= v);
    let (x2, y2) = choose|x2: int, y2: int|
        in_range(x2) && in_range(y2) && peers(cur % 9, cur / 9, x2, y2) && #[trigger] g[y2][x2].value == v;
    let q2 = 9 * y2 + x2;
    assert(at(g, q2) == g[y2][x2]);
    assert(q2 % 9 == x2 && q2 / 9 == y2);
    assert(at(g, q2).candidates == at(init, q2).candidates);
    if free(init, q2) {
        assert(q2 != cur);
        if q2 > cur {
            assert(at(g, q2).value == 0);
        } else {
            assert(at(init, q2) == init[y2][x2]);
            assert(g[y2][x2].candidates == init[y2][x2].candidates);
            assert(sol[q2] == at(g, q2).candidate_index);
            assert(choice_value(init, sol, q2) == v);
        }
    } else {
        assert(choice_value(init, sol, q2) == v);
    }
    assert(peers(cur % 9, cur / 9, q2 % 9, q2 / 9));
    assert(choice_value(init, sol, cur) == choice_value(init, sol, q2));
}

proof fn lemma_rejected_at_cursor(
    init: GridView,
    g: GridView,
    cur: int,
    bt: bool,
    sol: Seq<int>,
    start: int,
    stop: int,
)
    requires
        wf_grid(init),
        wf_grid(g),
        0 <= cur < 81,
        free(init, cur),
        search_keeps(init, g),
        filled_from_candidates(init, g),
        forall|q: int| 0 <= q < cur ==> #[trigger] at(g, q).value != 0,
        forall|q: int| cur < q < 81 && free(init, q) ==> #[trigger] at(g, q).value == 0,
        start == at(g, cur).candidate_index + if bt { 1int } else { 0int },
        stop <= at(g, cur).candidates.len(),
        forall|j: int| start <= j < stop ==> !placeable(g, cur % 9, cur / 9, #[trigger] at(g, cur).candidates[j]),
        forall|q: int| 0 <= q < cur && free(init, q) ==> sol[q] == #[trigger] at(g, q).candidate_index,
        !passed_over(init, g, cur, bt, sol),
        sol.len() == 81,
        0 <= sol[cur] < stop,
    ensures
        !is_completion(init, sol),
{
    assert(at(g, cur).candidates == at(init, cur).candidates);
    if sol[cur] < start {
        assert(sol[cur] < at(g, cur).candidate_index + if cur == cur && bt { 1int } else { 0int });
        assert(passed_over(init, g, cur, bt, sol));
    } else {
        assert(choice_value(init, sol, cur) == at(g, cur).candidates[sol[cur]]);
        assert forall|q: int|
            0 <= q < cur && free(init, q) implies sol[q] == #[trigger] at(g, q).candidate_index && at(
                g,
                q,
            ).value == at(g, q).candidates[at(g, q).candidate_index as int] by {
            assert(at(g, q) == g[q / 9][q % 9]);
            assert(at(init, q) == init[q / 9][q % 9]);
        }
        lemma_rejected_value_conflicts(init, g, cur, sol);
    }
}

/// Fills the unassigned squares by chronological backtracking.
///
/// Squares are visited in row-major order. An unassigned square tries its
/// candidates in order from its `candidate_index`, keeps the first one that
/// `is_valid_cell_value` accepts, and is pushed on the trail. A square with no
/// acceptable candidate is reset and the search resumes at the last square of
/// the trail, one candidate further. The search gives up after more than
/// `DEAD_END_CAP` dead ends in a row.
///
/// When every free square starts at its first candidate, the search is
/// complete: it ends `Exhausted` only if no way of filling the free squares
/// with their candidates avoids a clash, and otherwise ends `Solved`.
#[verifier::rlimit(100)]
#[verifier::spinoff_prover]
pub fn start_bruteforce_sudoku(sudoku_grid: &mut Vec<Vec<Cell>>) -> (r: SearchOutcome)
    requires
        wf_grid(grid_view(old(sudoku_grid)@)),
    ensures
        wf_grid(grid_view(final(sudoku_grid)@)),
        search_keeps(grid_view(old(sudoku_grid)@), grid_view(final(sudoku_grid)@)),
        filled_from_candidates(grid_view(old(sudoku_grid)@), grid_view(final(sudoku_grid)@)),
        conflict_free(grid_view(old(sudoku_grid)@)) ==> conflict_free(
            grid_view(final(sudoku_grid)@),
        ),
        r != SearchOutcome::Abandoned,
        r == SearchOutcome::Solved ==> complete(grid_view(final(sudoku_grid)@)),
        r == SearchOutcome::Exhausted ==> same_values(
            grid_view(final(sudoku_grid)@),
            grid_view(old(sudoku_grid)@),
        ),
        r == SearchOutcome::Exhausted && starts_fresh(grid_view(old(sudoku_grid)@)) ==> forall|
            sol: Seq<int>,
        | !is_completion(grid_view(old(sudoku_grid)@), sol),
        starts_fresh(grid_view(old(sudoku_grid)@)) && (exists|sol: Seq<int>|
            is_completion(grid_view(old(sudoku_grid)@), sol)) ==> r == SearchOutcome::Solved,
{
    let ghost init = grid_view(sudoku_grid@);
    let mut dead_ends: u32 = 0;
    let mut cur: usize = 0;
    let mut backtracking: bool = false;
    let mut trail: Vec<usize> = Vec::new();
    proof {
        lemma_shaped(sudoku_grid@);
    }
    while cur < 81
        invariant
            init == grid_view(old(sudoku_grid)@),
            wf_grid(init),
            wf_grid(grid_view(sudoku_grid@)),
            shaped(sudoku_grid@),
            cur <= 81,
            dead_ends + trail@.len() <= 81,
            search_keeps(init, grid_view(sudoku_grid@)),
            filled_from_candidates(init, grid_view(sudoku_grid@)),
            conflict_free(init) ==> conflict_free(grid_view(sudoku_grid@)),
            trail@ == free_before(init, cur as int),
            forall|q: int| 0 <= q < cur ==> #[trigger] at(grid_view(sudoku_grid@), q).value != 0,
            forall|q: int|
                0 <= q < cur && free(init, q) ==> #[trigger] at(
                    grid_view(sudoku_grid@),
                    q,
                ).candidate_index < at(grid_view(sudoku_grid@), q).candidates.len(),
            forall|q: int|
                cur <= q < 81 && free(init, q) && (q != cur || !backtracking) ==> #[trigger] at(
                    grid_view(sudoku_grid@),
                    q,
                ).value == 0,
            backtracking ==> cur < 81 && free(init, cur as int) && at(
                grid_view(sudoku_grid@),
                cur as int,
            ).candidate_index < at(grid_view(sudoku_grid@), cur as int).candidates.len(),
            starts_fresh(init) ==> forall|q: int|
                cur <= q < 81 && free(init, q) && (q != cur || !backtracking) ==> #[trigger] at(
                    grid_view(sudoku_grid@),
                    q,
                ).candidate_index == 0,
            starts_fresh(init) ==> forall|sol: Seq<int>|
                is_completion(init, sol) ==> !#[trigger] passed_over(
                    init,
                    grid_view(sudoku_grid@),
                    cur as int,
                    backtracking,
                    sol,
                ),
        decreases 82 * pow11(81) - search_measure(
            init,
            grid_view(sudoku_grid@),
            cur as int,
            backtracking,
        ),
    {
        let ghost g0 = grid_view(sudoku_grid@);
        let ghost cur0 = cur as int;
        let ghost bt0 = backtracking;
        let x = cur % 9;
        let y = cur / 9;
        proof {
            lemma_shaped(sudoku_grid@);
        }
        if sudoku_grid[y][x].value == 0 || backtracking {
            let mut c = sudoku_grid[y][x].candidate_index;
            if backtracking {
                c = c + 1;
            }
            let ghost start = c;
            assert(at(g0, cur0) == g0[y as int][x as int]);
            let mut value: u8 = 0;
            let mut candidate_valid = false;
            while !candidate_valid && c < sudoku_grid[y][x].candidates.len()
                invariant
                    x < 9,
                    y < 9,
                    shaped(sudoku_grid@),
                    g0 == grid_view(sudoku_grid@),
                    wf_grid(g0),
                    c >= start,
                    forall|j: int|
                        start <= j < c ==> !placeable(
                            g0,
                            x as int,
                            y as int,
                            #[trigger] g0[y as int][x as int].candidates[j],
                        ),
                    candidate_valid ==> c < g0[y as int][x as int].candidates.len() && value
                        == g0[y as int][x as int].candidates[c as int] && placeable(
                        g0,
                        x as int,
                        y as int,
                        value,
                    ),
                decreases g0[y as int][x as int].candidates.len() - c + if candidate_valid {
                    0int
                } else {
                    1int
                },
            {
                proof {
                    lemma_shaped(sudoku_grid@);
                }
                value = sudoku_grid[y][x].candidates[c];
                let snapshot = clone_sudoku_grid(sudoku_grid);
                let mut probe = clone_cell(&sudoku_grid[y][x]);
                candidate_valid = is_valid_cell_value(snapshot, &mut probe, value);
                if !candidate_valid {
                    c = c + 1;
                }
            }
            if candidate_valid {
                proof {
                    lemma_free_before_facts(init, cur0 + 1);
                }
                dead_ends = 0;
                trail.push(cur);
                set_cell(sudoku_grid, x, y, value, c);
                proof {
                    let g1 = grid_view(sudoku_grid@);
                    assert(free(init, cur as int));
                    assert forall|q: int| 0 <= q < 81 && q != cur0 implies #[trigger] at(g1, q)
                        == at(g0, q) by {}
                    assert(trail@ =~= free_before(init, cur0 + 1));
                    let d0 = progress_digits(init, g0, cur0, bt0);
                    let d1 = progress_digits(init, g1, cur0 + 1, false);
                    assert forall|i: int| 0 <= i < 81 implies #[trigger] d0[i] <= d1[i] by {}
                    lemma_horner_mono(d0, d1, 81);
                    assert(digits_ok(d1));
                    lemma_horner_bound(d1, 81);
                    if starts_fresh(init) {
                        assert forall|sol: Seq<int>| is_completion(init, sol) implies !#[trigger] passed_over(
                            init,
                            g1,
                            cur0 + 1,
                            false,
                            sol,
                        ) by {
                            if passed_over(init, g1, cur0 + 1, false, sol) {
                                let q = choose|q: int|
                                    0 <= q <= cur0 + 1 && q < 81 && free(init, q) && (forall|q2: int|
                                        0 <= q2 < q && free(init, q2) ==> sol[q2] == at(g1, q2).candidate_index)
                                        && #[trigger] sol[q] < at(g1, q).candidate_index + if q == cur0 + 1
                                        && false {
                                        1int
                                    } else {
                                        0int
                                    };
                                assert forall|q2: int| 0 <= q2 < q && q2 < cur0 && free(init, q2) implies sol[q2]
                                    == #[trigger] at(g0, q2).candidate_index by {
                                    assert(at(g1, q2) == at(g0, q2));
                                }
                                if q < cur0 {
                                    assert(at(g1, q) == at(g0, q));
                                    assert(passed_over(init, g0, cur0, bt0, sol));
                                } else if q == cur0 {
                                    lemma_rejected_at_cursor(init, g0, cur0, bt0, sol, start as int, c as int);
                                } else {
                                    assert(at(g1, q) == at(g0, q));
                                }
                            }
                        }
                    }
                }
                cur = cur + 1;
                backtracking = false;
            } else {
                set_cell(sudoku_grid, x, y, 0, 0);
                let ghost g1 = grid_view(sudoku_grid@);
                proof {
                    lemma_free_before_facts(init, cur0);
                    assert(free(init, cur0));
                    assert forall|q: int| 0 <= q < 81 && q != cur0 implies #[trigger] at(g1, q)
                        == at(g0, q) by {}
                }
                match trail.pop() {
                    Some(p) => {
                        cur = p;
                    },
                    None => {
                        proof {
                            assert forall|xx: int, yy: int| in_range(xx) && in_range(yy) implies
                                #[trigger] g1[yy][xx].value == init[yy][xx].value by {
                                let q = 9 * yy + xx;
                                assert(at(g1, q) == g1[yy][xx]);
                                assert(at(init, q) == init[yy][xx]);
                                assert(at(g0, q) == g0[yy][xx]);
                                if q != cur0 {
                                    assert(at(g1, q) == at(g0, q));
                                    if free(init, q) {
                                        assert(q > cur0);
                                    }
                                }
                            }
                            if starts_fresh(init) {
                                assert forall|sol: Seq<int>| !is_completion(init, sol) by {
                                    if is_completion(init, sol) {
                                        assert(at(g0, cur0).candidates == at(init, cur0).candidates);
                                        lemma_rejected_at_cursor(
                                            init,
                                            g0,
                                            cur0,
                                            bt0,
                                            sol,
                                            start as int,
                                            at(g0, cur0).candidates.len() as int,
                                        );
                                    }
                                }
                            }
                        }
                        return SearchOutcome::Exhausted;
                    },
                }
                proof {
                    let d0 = progress_digits(init, g0, cur0, bt0);
                    let d1 = progress_digits(init, g1, cur as int, true);
                    assert forall|i: int| 0 <= i < cur implies #[trigger] d0[i] == d1[i] by {}
                    assert(d0[cur as int] < d1[cur as int]);
                    assert(digits_ok(d0));
                    assert(digits_ok(d1));
                    lemma_horner_lex(d0, d1, cur as int, 81);
                    lemma_horner_bound(d1, 81);
                    let pp = cur as int;
                    if starts_fresh(init) {
                        assert forall|sol: Seq<int>| is_completion(init, sol) implies !#[trigger] passed_over(
                            init,
                            g1,
                            pp,
                            true,
                            sol,
                        ) by {
                            if passed_over(init, g1, pp, true, sol) {
                                let q = choose|q: int|
                                    0 <= q <= pp && q < 81 && free(init, q) && (forall|q2: int|
                                        0 <= q2 < q && free(init, q2) ==> sol[q2] == at(g1, q2).candidate_index)
                                        && #[trigger] sol[q] < at(g1, q).candidate_index + if q == pp && true {
                                        1int
                                    } else {
                                        0int
                                    };
                                assert forall|q2: int| 0 <= q2 < q && free(init, q2) implies sol[q2]
                                    == #[trigger] at(g0, q2).candidate_index by {
                                    assert(at(g1, q2) == at(g0, q2));
                                }
                                assert(at(g1, q) == at(g0, q));
                                if q < pp {
                                    assert(passed_over(init, g0, cur0, bt0, sol));
                                } else if sol[pp] < at(g0, pp).candidate_index {
                                    assert(passed_over(init, g0, cur0, bt0, sol));
                                } else {
                                    assert forall|q2: int| 0 <= q2 < cur0 && free(init, q2) implies sol[q2]
                                        == #[trigger] at(g0, q2).candidate_index by {
                                        if q2 < pp {
                                            assert(at(g1, q2) == at(g0, q2));
                                        }
                                    }
                                    assert(at(g0, cur0).candidates == at(init, cur0).candidates);
                                    lemma_rejected_at_cursor(
                                        init,
                                        g0,
                                        cur0,
                                        bt0,
                                        sol,
                                        start as int,
                                        at(g0, cur0).candidates.len() as int,
                                    );
                                }
                            }
                        }
                    }
                }
                backtracking = true;
                dead_ends = dead_ends + 1;
                if dead_ends > DEAD_END_CAP {
                    return SearchOutcome::Abandoned;
                }
            }
        } else {
            proof {
                assert(sudoku_grid@[y as int]@[x as int]@ == g0[y as int][x as int]);
                assert(at(g0, cur0) == g0[y as int][x as int]);
                assert(!free(init, cur0));
                assert(trail@ =~= free_before(init, cur0 + 1));
                let d0 = progress_digits(init, g0, cur0, bt0);
                let d1 = progress_digits(init, g0, cur0 + 1, false);
                assert forall|i: int| 0 <= i < 81 implies #[trigger] d0[i] <= d1[i] by {}
                lemma_horner_mono(d0, d1, 81);
                assert(digits_ok(d1));
                lemma_horner_bound(d1, 81);
                if starts_fresh(init) {
                    assert forall|sol: Seq<int>| is_completion(init, sol) implies !#[trigger] passed_over(
                        init,
                        g0,
                        cur0 + 1,
                        false,
                        sol,
                    ) by {
                        if passed_over(init, g0, cur0 + 1, false, sol) {
                            let q = choose|q: int|
                                0 <= q <= cur0 + 1 && q < 81 && free(init, q) && (forall|q2: int|
                                    0 <= q2 < q && free(init, q2) ==> sol[q2] == at(g0, q2).candidate_index)
                                    && #[trigger] sol[q] < at(g0, q).candidate_index + if q == cur0 + 1
                                    && false {
                                    1int
                                } else {
                                    0int
                                };
                            if q < cur0 {
                                assert(passed_over(init, g0, cur0, bt0, sol));
                            }
                        }
                    }
                }
            }
            cur = cur + 1;
            backtracking = false;
        }
    }
    proof {
        let g = grid_view(sudoku_grid@);
        assert forall|xx: int, yy: int| in_range(xx) && in_range(yy) implies #[trigger] g[yy][xx].value
            != 0 by {
            assert(at(g, 9 * yy + xx) == g[yy][xx]);
        }
    }
    SearchOutcome::Solved
}

} // verus!
