use vstd::prelude::*;
use crate::grid::{
    Cell, CellView, GridView, clone_sudoku_grid, complete, conflict_free, grid_view, in_range,
    lemma_shaped, same_values, shaped, solved, wf_grid,
};
use crate::propagate::{clean_candidates_by_boxes, clean_candidates_by_lines_columns, propagate};
use crate::search::{
    SearchOutcome, filled_from_candidates, is_completion, search_keeps, start_bruteforce_sudoku,
    starts_fresh,
};

verus! {

/// Solves a copy of the board: one round of propagation (rows and columns,
/// then boxes), then the backtracking search. The input is left as it is.
pub fn resolve_sudoku_grid(sudoku_grid: Vec<Vec<Cell>>) -> (r: (Vec<Vec<Cell>>, SearchOutcome))
    requires
        wf_grid(grid_view(sudoku_grid@)),
    ensures
        wf_grid(grid_view(r.0@)),
        search_keeps(propagate(grid_view(sudoku_grid@)), grid_view(r.0@)),
        filled_from_candidates(propagate(grid_view(sudoku_grid@)), grid_view(r.0@)),
        r.1 == SearchOutcome::Solved ==> complete(grid_view(r.0@)),
        r.1 == SearchOutcome::Solved && conflict_free(propagate(grid_view(sudoku_grid@))) ==> solved(
            grid_view(r.0@),
        ),
        r.1 == SearchOutcome::Exhausted ==> same_values(
            grid_view(r.0@),
            propagate(grid_view(sudoku_grid@)),
        ),
        r.1 == SearchOutcome::Exhausted && starts_fresh(propagate(grid_view(sudoku_grid@))) ==> forall|
            sol: Seq<int>,
        | !is_completion(propagate(grid_view(sudoku_grid@)), sol),
        r.1 != SearchOutcome::Abandoned,
        starts_fresh(propagate(grid_view(sudoku_grid@))) && (exists|sol: Seq<int>|
            is_completion(propagate(grid_view(sudoku_grid@)), sol)) ==> r.1 == SearchOutcome::Solved,
{
    let mut resolved = clone_sudoku_grid(&sudoku_grid);
    clean_candidates_by_lines_columns(&mut resolved);
    clean_candidates_by_boxes(&mut resolved);
    let outcome = start_bruteforce_sudoku(&mut resolved);
    (resolved, outcome)
}

/// The text of one row: each value as a digit followed by a space, then a line feed.
pub open spec fn row_text(row: Seq<CellView>, n: nat) -> Seq<u8>
    decreases n,
{
    if n == 0 || n > row.len() {
        Seq::empty()
    } else {
        row_text(row, (n - 1) as nat) + seq![(48 + row[n - 1].value) as u8, 32u8]
    }
}

/// The text of the first `n` rows of a board, one line per row.
pub open spec fn grid_text(g: GridView, n: nat) -> Seq<u8>
    decreases n,
{
    if n == 0 || n > g.len() {
        Seq::empty()
    } else {
        grid_text(g, (n - 1) as nat) + row_text(g[n - 1], 9) + seq![10u8]
    }
}

/// The board as text: nine lines, each value followed by a space.
pub fn format_sudoku_grid(sudoku_grid: &Vec<Vec<Cell>>) -> (r: Vec<u8>)
    requires
        wf_grid(grid_view(sudoku_grid@)),
    ensures
        r@ == grid_text(grid_view(sudoku_grid@), 9),
{
    let ghost g = grid_view(sudoku_grid@);
    proof {
        lemma_shaped(sudoku_grid@);
    }
    let mut out: Vec<u8> = Vec::new();
    let mut y: usize = 0;
    while y < 9
        invariant
            g == grid_view(sudoku_grid@),
            wf_grid(g),
            shaped(sudoku_grid@),
            forall|x: int, y: int| in_range(x) && in_range(y) ==> #[trigger] sudoku_grid@[y]@[x]@ == g[y][x],
            y <= 9,
            out@ == grid_text(g, y as nat),
        decreases 9 - y,
    {
        let ghost before = out@;
        let mut x: usize = 0;
        while x < 9
            invariant
                g == grid_view(sudoku_grid@),
                wf_grid(g),
                shaped(sudoku_grid@),
                forall|x: int, y: int| in_range(x) && in_range(y) ==> #[trigger] sudoku_grid@[y]@[x]@ == g[y][x],
                y < 9,
                x <= 9,
                out@ == before + row_text(g[y as int], x as nat),
            decreases 9 - x,
        {
            assert(sudoku_grid@[y as int]@[x as int]@ == g[y as int][x as int]);
            out.push(48 + sudoku_grid[y][x].value);
            out.push(32);
            assert(out@ =~= before + row_text(g[y as int], (x + 1) as nat));
            x = x + 1;
        }
        out.push(10);
        assert(out@ =~= grid_text(g, (y + 1) as nat));
        y = y + 1;
    }
    out
}

} // verus!
