use vstd::prelude::*;
use crate::grid::{
    Cell, CellView, GridView, grid_view, in_range, lemma_shaped, peers, row_view, shaped, solved,
    wf_cell, wf_grid,
};
use crate::parse::all_digits;

verus! {

/// The candidates `c` without the members of `bad`, in their order.
pub open spec fn keep_allowed(c: Seq<u8>, bad: Set<u8>) -> Seq<u8>
    decreases c.len(),
{
    if c.len() == 0 {
        c
    } else {
        let rest = keep_allowed(c.drop_last(), bad);
        if bad.contains(c.last()) {
            rest
        } else {
            rest.push(c.last())
        }
    }
}

/// A cell after its candidates lose the members of `bad`: an unassigned cell
/// left with exactly one candidate takes it as its value and drops its
/// candidates. An assigned cell is left as it is.
pub open spec fn narrow(c: CellView, bad: Set<u8>) -> CellView {
    if c.value != 0 {
        c
    } else {
        let k = keep_allowed(c.candidates, bad);
        if k.len() == 1 {
            CellView { value: k[0], candidates: Seq::empty(), ..c }
        } else {
            CellView { candidates: k, ..c }
        }
    }
}

/// The three kinds of groups of nine squares that must hold distinct values.
#[derive(Debug, Clone, Copy, PartialEq, Eq, Structural)]
pub enum Unit {
    Row,
    Column,
    Box,
}

/// The `k`-th square `(x, y)` of the `u`-th group of kind `kind`; boxes are
/// numbered row-major, and so are the squares inside a box.
pub open spec fn unit_square(kind: Unit, u: int, k: int) -> (int, int) {
    match kind {
        Unit::Row => (k, u),
        Unit::Column => (u, k),
        Unit::Box => (u % 3 * 3 + k % 3, u / 3 * 3 + k / 3),
    }
}

/// The group of kind `kind` that holds the square `(x, y)`.
pub open spec fn unit_of(kind: Unit, x: int, y: int) -> int {
    match kind {
        Unit::Row => y,
        Unit::Column => x,
        Unit::Box => y / 3 * 3 + x / 3,
    }
}

/// The place of the square `(x, y)` inside its group of kind `kind`.
pub open spec fn index_in_unit(kind: Unit, x: int, y: int) -> int {
    match kind {
        Unit::Row => x,
        Unit::Column => y,
        Unit::Box => y % 3 * 3 + x % 3,
    }
}

/// The nonzero values held in the `u`-th group of kind `kind`.
pub open spec fn unit_values(g: GridView, kind: Unit, u: int) -> Set<u8> {
    Set::new(|v: u8| v != 0 && exists|k: int| 0 <= k < 9 && #[trigger] unit_value(g, kind, u, k) == v)
}

/// The value of the `k`-th square of the `u`-th group of kind `kind`.
pub open spec fn unit_value(g: GridView, kind: Unit, u: int, k: int) -> u8 {
    g[unit_square(kind, u, k).1][unit_square(kind, u, k).0].value
}

/// Each cell narrowed by the values its group of kind `kind` held before the pass.
pub open spec fn unit_pass(g: GridView, kind: Unit) -> GridView {
    Seq::new(
        9,
        |y: int| Seq::new(9, |x: int| narrow(g[y][x], unit_values(g, kind, unit_of(kind, x, y)))),
    )
}

/// One round of propagation: rows, then columns, then boxes.
pub open spec fn propagate(g: GridView) -> GridView {
    unit_pass(unit_pass(unit_pass(g, Unit::Row), Unit::Column), Unit::Box)
}

proof fn lemma_keep_allowed(c: Seq<u8>, bad: Set<u8>)
    ensures
        keep_allowed(c, bad).len() <= c.len(),
        forall|i: int| 0 <= i < keep_allowed(c, bad).len() ==> {
            let v = #[trigger] keep_allowed(c, bad)[i];
            c.contains(v) && !bad.contains(v)
        },
        (forall|i: int| 0 <= i < c.len() ==> !bad.contains(#[trigger] c[i])) ==> keep_allowed(c, bad)
            == c,
    decreases c.len(),
{
    if c.len() > 0 {
        let rest = keep_allowed(c.drop_last(), bad);
        lemma_keep_allowed(c.drop_last(), bad);
        assert forall|i: int| 0 <= i < keep_allowed(c, bad).len() implies {
            let v = #[trigger] keep_allowed(c, bad)[i];
            c.contains(v) && !bad.contains(v)
        } by {
            if i < rest.len() {
                let v = rest[i];
                let j = choose|j: int| 0 <= j < c.drop_last().len() && c.drop_last()[j] == v;
                assert(c[j] == v);
            } else {
                assert(c[c.len() - 1] == c.last());
            }
        }
        if forall|i: int| 0 <= i < c.len() ==> !bad.contains(#[trigger] c[i]) {
            assert(forall|i: int| 0 <= i < c.drop_last().len() ==> c.drop_last()[i] == c[i]);
            assert(!bad.contains(c[c.len() - 1]));
            assert(c.drop_last().push(c.last()) =~= c);
        }
    }
}

proof fn lemma_narrow_wf(c: CellView, bad: Set<u8>, x: int, y: int)
    requires
        wf_cell(c, x, y),
    ensures
        wf_cell(narrow(c, bad), x, y),
        narrow(c, bad).value == 0 ==> narrow(c, bad).candidates.len() != 1,
        c.value == 0 ==> narrow(c, bad).value == 0 || bad.contains(narrow(c, bad).value) == false,
{
    lemma_keep_allowed(c.candidates, bad);
    let k = keep_allowed(c.candidates, bad);
    if c.value == 0 && k.len() == 1 {
        assert(k.contains(k[0]));
    }
    assert forall|i: int| 0 <= i < k.len() implies 1 <= #[trigger] k[i] <= 9 by {
        let j = choose|j: int| 0 <= j < c.candidates.len() && c.candidates[j] == k[i];
    }
}

fn contains_value(vals: &Vec<u8>, v: u8) -> (r: bool)
    ensures
        r == vals@.contains(v),
{
    let mut i: usize = 0;
    while i < vals.len()
        invariant
            i <= vals@.len(),
            forall|j: int| 0 <= j < i ==> vals@[j] != v,
        decreases vals@.len() - i,
    {
        if vals[i] == v {
            assert(vals@[i as int] == v);
            return true;
        }
        i = i + 1;
    }
    false
}

/// The members of `c` that `bad` does not hold, in order.
fn without_values(c: &Vec<u8>, bad: &Vec<u8>, Ghost(s): Ghost<Set<u8>>) -> (r: Vec<u8>)
    requires
        forall|v: u8| bad@.contains(v) <==> s.contains(v),
    ensures
        r@ == keep_allowed(c@, s),
{
    let mut r: Vec<u8> = Vec::new();
    let mut i: usize = 0;
    while i < c.len()
        invariant
            i <= c@.len(),
            forall|v: u8| bad@.contains(v) <==> s.contains(v),
            r@ == keep_allowed(c@.subrange(0, i as int), s),
        decreases c@.len() - i,
    {
        assert(c@.subrange(0, i as int + 1).drop_last() =~= c@.subrange(0, i as int));
        if !contains_value(bad, c[i]) {
            r.push(c[i]);
        }
        i = i + 1;
    }
    assert(c@.subrange(0, c@.len() as int) =~= c@);
    r
}

/// Narrows the cell at `(x, y)` by the values in `bad`.
fn narrow_cell(g: &mut Vec<Vec<Cell>>, x: usize, y: usize, bad: &Vec<u8>, Ghost(s): Ghost<Set<u8>>)
    requires
        shaped(old(g)@),
        x < 9,
        y < 9,
        forall|v: u8| bad@.contains(v) <==> s.contains(v),
    ensures
        shaped(final(g)@),
        grid_view(final(g)@) == grid_view(old(g)@).update(
            y as int,
            grid_view(old(g)@)[y as int].update(x as int, narrow(grid_view(old(g)@)[y as int][x as int], s)),
        ),
{
    let ghost target = grid_view(old(g)@).update(
        y as int,
        grid_view(old(g)@)[y as int].update(x as int, narrow(grid_view(old(g)@)[y as int][x as int], s)),
    );
    assert(g@[y as int]@[x as int]@ == grid_view(g@)[y as int][x as int]);
    if g[y][x].value == 0 {
        let k = without_values(&g[y][x].candidates, bad, Ghost(s));
        if k.len() == 1 {
            g[y][x].value = k[0];
            g[y][x].candidates = Vec::new();
        } else {
            g[y][x].candidates = k;
        }
    }
    assert(row_view(g@[y as int]) =~= target[y as int]);
    assert(grid_view(g@) =~= target);
}

fn square_of(kind: Unit, u: usize, k: usize) -> (r: (usize, usize))
    requires
        u < 9,
        k < 9,
    ensures
        r.0 == unit_square(kind, u as int, k as int).0,
        r.1 == unit_square(kind, u as int, k as int).1,
        r.0 < 9,
        r.1 < 9,
        unit_of(kind, r.0 as int, r.1 as int) == u,
        index_in_unit(kind, r.0 as int, r.1 as int) == k,
{
    match kind {
        Unit::Row => (k, u),
        Unit::Column => (u, k),
        Unit::Box => (u % 3 * 3 + k % 3, u / 3 * 3 + k / 3),
    }
}

proof fn lemma_square_of_cell(kind: Unit, x: int, y: int)
    requires
        in_range(x),
        in_range(y),
    ensures
        0 <= unit_of(kind, x, y) < 9,
        0 <= index_in_unit(kind, x, y) < 9,
        unit_square(kind, unit_of(kind, x, y), index_in_unit(kind, x, y)) == (x, y),
{
}

/// The nonzero values held in the `u`-th group of kind `kind`.
fn collect_unit(g: &Vec<Vec<Cell>>, kind: Unit, u: usize) -> (r: Vec<u8>)
    requires
        shaped(g@),
        wf_grid(grid_view(g@)),
        u < 9,
    ensures
        forall|v: u8| r@.contains(v) <==> unit_values(grid_view(g@), kind, u as int).contains(v),
{
    let ghost gv = grid_view(g@);
    proof {
        lemma_shaped(g@);
    }
    let mut r: Vec<u8> = Vec::new();
    let mut k: usize = 0;
    while k < 9
        invariant
            gv == grid_view(g@),
            shaped(g@),
            u < 9,
            k <= 9,
            forall|x: int, y: int| in_range(x) && in_range(y) ==> #[trigger] g@[y]@[x]@ == gv[y][x],
            forall|v: u8|
                r@.contains(v) <==> (v != 0 && exists|j: int|
                    0 <= j < k && #[trigger] unit_value(gv, kind, u as int, j) == v),
        decreases 9 - k,
    {
        let (x, y) = square_of(kind, u, k);
        let v = g[y][x].value;
        assert(g@[y as int]@[x as int]@ == gv[y as int][x as int]);
        let ghost before = r@;
        if v != 0 {
            r.push(v);
        }
        assert(v == unit_value(gv, kind, u as int, k as int));
        assert forall|w: u8|
            r@.contains(w) <==> (w != 0 && exists|j: int|
                0 <= j < k + 1 && #[trigger] unit_value(gv, kind, u as int, j) == w) by {
            if r@.contains(w) {
                if before.contains(w) {
                    let j = choose|j: int| 0 <= j < k && #[trigger] unit_value(gv, kind, u as int, j) == w;
                    assert(0 <= j < k + 1 && unit_value(gv, kind, u as int, j) == w);
                } else {
                    let i = choose|i: int| 0 <= i < r@.len() && r@[i] == w;
                    assert(v != 0 && r@ == before.push(v));
                    assert(w == v);
                    assert(unit_value(gv, kind, u as int, k as int) == w);
                }
            }
            if w != 0 && exists|j: int| 0 <= j < k + 1 && #[trigger] unit_value(gv, kind, u as int, j) == w {
                let j = choose|j: int| 0 <= j < k + 1 && #[trigger] unit_value(gv, kind, u as int, j) == w;
                if j < k {
                    assert(before.contains(w));
                    let i = choose|i: int| 0 <= i < before.len() && before[i] == w;
                    if v != 0 {
                        assert(r@ == before.push(v));
                        assert(r@[i] == w);
                    }
                } else {
                    assert(r@ == before.push(v));
                    assert(r@[before.len() as int] == w);
                }
            }
        }
        k = k + 1;
    }
    r
}

/// Narrows every cell of the `u`-th group of kind `kind` by the values the
/// group held before.
fn narrow_unit(g: &mut Vec<Vec<Cell>>, kind: Unit, u: usize)
    requires
        shaped(old(g)@),
        wf_grid(grid_view(old(g)@)),
        u < 9,
    ensures
        shaped(final(g)@),
        forall|x: int, y: int|
            in_range(x) && in_range(y) ==> #[trigger] grid_view(final(g)@)[y][x] == if unit_of(
                kind,
                x,
                y,
            ) == u {
                narrow(grid_view(old(g)@)[y][x], unit_values(grid_view(old(g)@), kind, u as int))
            } else {
                grid_view(old(g)@)[y][x]
            },
{
    let ghost g0 = grid_view(g@);
    let ghost s = unit_values(g0, kind, u as int);
    let bad = collect_unit(g, kind, u);
    let mut k: usize = 0;
    while k < 9
        invariant
            shaped(g@),
            wf_grid(g0),
            u < 9,
            k <= 9,
            s == unit_values(g0, kind, u as int),
            forall|v: u8| bad@.contains(v) <==> s.contains(v),
            grid_view(g@).len() == 9,
            forall|y: int| in_range(y) ==> #[trigger] grid_view(g@)[y].len() == 9,
            forall|x: int, y: int|
                in_range(x) && in_range(y) ==> #[trigger] grid_view(g@)[y][x] == if unit_of(
                    kind,
                    x,
                    y,
                ) == u && index_in_unit(kind, x, y) < k {
                    narrow(g0[y][x], s)
                } else {
                    g0[y][x]
                },
        decreases 9 - k,
    {
        let (x, y) = square_of(kind, u, k);
        let ghost prev = grid_view(g@);
        narrow_cell(g, x, y, &bad, Ghost(s));
        proof {
            let cur = grid_view(g@);
            assert forall|x2: int, y2: int| in_range(x2) && in_range(y2) implies #[trigger] cur[y2][x2]
                == if unit_of(kind, x2, y2) == u && index_in_unit(kind, x2, y2) < k + 1 {
                narrow(g0[y2][x2], s)
            } else {
                g0[y2][x2]
            } by {
                lemma_square_of_cell(kind, x2, y2);
                if x2 == x && y2 == y {
                } else {
                    assert(cur[y2][x2] == prev[y2][x2]);
                }
            }
        }
        k = k + 1;
    }
    assert forall|x: int, y: int| in_range(x) && in_range(y) && unit_of(kind, x, y) == u implies index_in_unit(
        kind,
        x,
        y,
    ) < 9 by {
        lemma_square_of_cell(kind, x, y);
    }
}

proof fn lemma_grid_ext(a: GridView, b: GridView)
    requires
        a.len() == 9,
        b.len() == 9,
        forall|y: int| in_range(y) ==> #[trigger] a[y].len() == 9 && b[y].len() == 9,
        forall|x: int, y: int| in_range(x) && in_range(y) ==> #[trigger] a[y][x] == b[y][x],
    ensures
        a == b,
{
    assert forall|y: int| in_range(y) implies #[trigger] a[y] == b[y] by {
        assert(a[y] =~= b[y]);
    }
    assert(a =~= b);
}

/// Narrows every cell by the values of its group of kind `kind`, one group
/// after the other.
fn run_unit_pass(g: &mut Vec<Vec<Cell>>, kind: Unit)
    requires
        wf_grid(grid_view(old(g)@)),
    ensures
        wf_grid(grid_view(final(g)@)),
        grid_view(final(g)@) == unit_pass(grid_view(old(g)@), kind),
{
    let ghost g0 = grid_view(g@);
    proof {
        lemma_shaped(g@);
    }
    let mut u: usize = 0;
    while u < 9
        invariant
            u <= 9,
            shaped(g@),
            wf_grid(g0),
            wf_grid(grid_view(g@)),
            forall|x: int, y: int|
                in_range(x) && in_range(y) ==> #[trigger] grid_view(g@)[y][x] == if unit_of(kind, x, y)
                    < u {
                    narrow(g0[y][x], unit_values(g0, kind, unit_of(kind, x, y)))
                } else {
                    g0[y][x]
                },
        decreases 9 - u,
    {
        let ghost prev = grid_view(g@);
        proof {
            assert forall|k: int| 0 <= k < 9 implies #[trigger] unit_value(prev, kind, u as int, k)
                == unit_value(g0, kind, u as int, k) by {
                let (x, y) = unit_square(kind, u as int, k);
                lemma_square_of_cell(kind, x, y);
            }
            assert forall|v: u8| #[trigger] unit_values(prev, kind, u as int).contains(v)
                == unit_values(g0, kind, u as int).contains(v) by {
                if unit_values(prev, kind, u as int).contains(v) {
                    let k = choose|k: int| 0 <= k < 9 && #[trigger] unit_value(prev, kind, u as int, k) == v;
                    assert(unit_value(g0, kind, u as int, k) == v);
                }
                if unit_values(g0, kind, u as int).contains(v) {
                    let k = choose|k: int| 0 <= k < 9 && #[trigger] unit_value(g0, kind, u as int, k) == v;
                    assert(unit_value(prev, kind, u as int, k) == v);
                }
            }
            assert(unit_values(prev, kind, u as int) =~= unit_values(g0, kind, u as int));
        }
        narrow_unit(g, kind, u);
        proof {
            let cur = grid_view(g@);
            assert forall|x: int, y: int| in_range(x) && in_range(y) implies #[trigger] cur[y][x]
                == if unit_of(kind, x, y) < u + 1 {
                narrow(g0[y][x], unit_values(g0, kind, unit_of(kind, x, y)))
            } else {
                g0[y][x]
            } by {
                lemma_square_of_cell(kind, x, y);
            }
            assert forall|x: int, y: int| in_range(x) && in_range(y) implies wf_cell(
                #[trigger] cur[y][x],
                x,
                y,
            ) by {
                lemma_square_of_cell(kind, x, y);
                if unit_of(kind, x, y) == u {
                    lemma_narrow_wf(prev[y][x], unit_values(prev, kind, u as int), x, y);
                }
            }
        }
        u = u + 1;
    }
    proof {
        let cur = grid_view(g@);
        assert forall|x: int, y: int| in_range(x) && in_range(y) implies #[trigger] cur[y][x]
            == unit_pass(g0, kind)[y][x] by {
            lemma_square_of_cell(kind, x, y);
        }
        lemma_grid_ext(cur, unit_pass(g0, kind));
    }
}

/// Row and column propagation: every cell is narrowed by the values of its
/// row, then every cell by the values of its column. A cell left with a single
/// candidate takes it at once; rows already done are not looked at again.
pub fn clean_candidates_by_lines_columns(sudoku_grid: &mut Vec<Vec<Cell>>)
    requires
        wf_grid(grid_view(old(sudoku_grid)@)),
    ensures
        wf_grid(grid_view(final(sudoku_grid)@)),
        grid_view(final(sudoku_grid)@) == unit_pass(
            unit_pass(grid_view(old(sudoku_grid)@), Unit::Row),
            Unit::Column,
        ),
{
    run_unit_pass(sudoku_grid, Unit::Row);
    run_unit_pass(sudoku_grid, Unit::Column);
}

/// Box propagation: every cell is narrowed by the values of its 3x3 box.
pub fn clean_candidates_by_boxes(sudoku_grid: &mut Vec<Vec<Cell>>)
    requires
        wf_grid(grid_view(old(sudoku_grid)@)),
    ensures
        wf_grid(grid_view(final(sudoku_grid)@)),
        grid_view(final(sudoku_grid)@) == unit_pass(grid_view(old(sudoku_grid)@), Unit::Box),
{
    run_unit_pass(sudoku_grid, Unit::Box);
}

/// No unassigned cell keeps a candidate that a square of its row, column or
/// box already holds.
pub open spec fn candidates_consistent(g: GridView) -> bool {
    forall|kind: Unit, x: int, y: int, i: int|
        in_range(x) && in_range(y) && g[y][x].value == 0 && 0 <= i < g[y][x].candidates.len()
            ==> !#[trigger] unit_values(g, kind, unit_of(kind, x, y)).contains(
            g[y][x].candidates[i],
        )
}

/// No unassigned cell is left with exactly one candidate.
pub open spec fn no_single_candidate(g: GridView) -> bool {
    forall|x: int, y: int|
        in_range(x) && in_range(y) && #[trigger] g[y][x].value == 0 ==> g[y][x].candidates.len() != 1
}

proof fn lemma_unit_pass_wf(g: GridView, kind: Unit)
    requires
        wf_grid(g),
    ensures
        wf_grid(unit_pass(g, kind)),
        no_single_candidate(unit_pass(g, kind)),
{
    let p = unit_pass(g, kind);
    assert forall|x: int, y: int| in_range(x) && in_range(y) implies wf_cell(#[trigger] p[y][x], x, y)
        && (p[y][x].value == 0 ==> p[y][x].candidates.len() != 1) by {
        lemma_narrow_wf(g[y][x], unit_values(g, kind, unit_of(kind, x, y)), x, y);
    }
}

proof fn lemma_unit_pass_noop(g: GridView, kind: Unit)
    requires
        wf_grid(g),
        candidates_consistent(g),
        no_single_candidate(g),
    ensures
        unit_pass(g, kind) == g,
{
    let p = unit_pass(g, kind);
    assert forall|x: int, y: int| in_range(x) && in_range(y) implies #[trigger] p[y][x] == g[y][x] by {
        let c = g[y][x];
        let bad = unit_values(g, kind, unit_of(kind, x, y));
        if c.value == 0 {
            assert forall|i: int| 0 <= i < c.candidates.len() implies !bad.contains(
                #[trigger] c.candidates[i],
            ) by {
                assert(!unit_values(g, kind, unit_of(kind, x, y)).contains(g[y][x].candidates[i]));
            }
            lemma_keep_allowed(c.candidates, bad);
        }
    }
    lemma_grid_ext(p, g);
}

/// Propagating a second time changes nothing, as long as the first round left
/// no candidate that a peer already holds. (A value that the box pass commits
/// can still rule out a candidate in a row or column that was handled before
/// it; a second round would then remove that candidate.)
pub proof fn lemma_propagate_idempotent(g: GridView)
    requires
        wf_grid(g),
        candidates_consistent(propagate(g)),
    ensures
        propagate(propagate(g)) == propagate(g),
{
    let p = propagate(g);
    lemma_unit_pass_wf(g, Unit::Row);
    lemma_unit_pass_wf(unit_pass(g, Unit::Row), Unit::Column);
    lemma_unit_pass_wf(unit_pass(unit_pass(g, Unit::Row), Unit::Column), Unit::Box);
    lemma_unit_pass_noop(p, Unit::Row);
    lemma_unit_pass_noop(p, Unit::Column);
    lemma_unit_pass_noop(p, Unit::Box);
}

/// The values of the `u`-th group of kind `kind`, in order.
pub open spec fn unit_seq(g: GridView, kind: Unit, u: int) -> Seq<u8> {
    Seq::new(9, |k: int| unit_value(g, kind, u, k))
}

/// In a solved board every row, every column and every box holds the digits
/// `1..=9`, each exactly once.
pub proof fn lemma_solved_units_are_permutations(g: GridView, kind: Unit, u: int)
    requires
        solved(g),
        0 <= u < 9,
    ensures
        unit_seq(g, kind, u).no_duplicates(),
        unit_seq(g, kind, u).to_set() == all_digits().to_set(),
{
    let s = unit_seq(g, kind, u);
    let d = all_digits();
    assert forall|k1: int, k2: int| 0 <= k1 < 9 && 0 <= k2 < 9 && k1 != k2 implies s[k1] != s[k2] by {
        let (x1, y1) = unit_square(kind, u, k1);
        let (x2, y2) = unit_square(kind, u, k2);
        lemma_square_of_cell(kind, x1, y1);
        lemma_square_of_cell(kind, x2, y2);
        assert(peers(x1, y1, x2, y2));
        assert(g[y1][x1].value != 0);
    }
    assert(s.no_duplicates());
    assert(d.no_duplicates());
    s.unique_seq_to_set();
    d.unique_seq_to_set();
    assert forall|v: u8| s.to_set().contains(v) implies d.to_set().contains(v) by {
        let k = choose|k: int| 0 <= k < 9 && s[k] == v;
        let (x, y) = unit_square(kind, u, k);
        lemma_square_of_cell(kind, x, y);
        assert(g[y][x].value != 0);
        assert(d[v - 1] == v);
    }
    vstd::set_lib::lemma_subset_equality(s.to_set(), d.to_set());
}

} // verus!
