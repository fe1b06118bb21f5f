use vstd::prelude::*;

verus! {

/// One square of the board: its coordinates, its value (`0` when unassigned),
/// the digits still possible for it, and where the search resumes among them.
#[derive(Debug, Clone)]
pub struct Cell {
    pub x: u8,
    pub y: u8,
    pub value: u8,
    pub candidates: Vec<u8>,
    pub candidate_index: usize,
}

/// The mathematical content of a `Cell`.
pub ghost struct CellView {
    pub x: u8,
    pub y: u8,
    pub value: u8,
    pub candidates: Seq<u8>,
    pub candidate_index: usize,
}

impl View for Cell {
    type V = CellView;

    open spec fn view(&self) -> CellView {
        CellView {
            x: self.x,
            y: self.y,
            value: self.value,
            candidates: self.candidates@,
            candidate_index: self.candidate_index,
        }
    }
}

/// A board as nine rows of nine cell views, indexed `[y][x]`.
pub type GridView = Seq<Seq<CellView>>;

/// The mathematical content of a board.
pub open spec fn grid_view(g: Seq<Vec<Cell>>) -> GridView {
    g.map_values(|row: Vec<Cell>| row_view(row))
}

/// The mathematical content of one row.
pub open spec fn row_view(row: Vec<Cell>) -> Seq<CellView> {
    row@.map_values(|c: Cell| c@)
}

pub open spec fn in_range(i: int) -> bool {
    0 <= i < 9
}

/// The board is nine rows of nine cells, each cell knows its own coordinates,
/// values are digits `0..=9`, and candidates are at most nine digits `1..=9`.
pub open spec fn wf_grid(g: GridView) -> bool {
    &&& g.len() == 9
    &&& forall|y: int| #![trigger g[y]] in_range(y) ==> g[y].len() == 9
    &&& forall|x: int, y: int| #![trigger g[y][x]] in_range(x) && in_range(y) ==> wf_cell(g[y][x], x, y)
}

pub open spec fn wf_cell(c: CellView, x: int, y: int) -> bool {
    &&& c.x == x
    &&& c.y == y
    &&& c.value <= 9
    &&& c.candidates.len() <= 9
    &&& forall|k: int| 0 <= k < c.candidates.len() ==> 1 <= #[trigger] c.candidates[k] <= 9
}

pub open spec fn same_box(x1: int, y1: int, x2: int, y2: int) -> bool {
    x1 / 3 == x2 / 3 && y1 / 3 == y2 / 3
}

/// Two distinct squares that share a row, a column or a 3x3 box.
pub open spec fn peers(x1: int, y1: int, x2: int, y2: int) -> bool {
    &&& (x1 != x2 || y1 != y2)
    &&& (y1 == y2 || x1 == x2 || same_box(x1, y1, x2, y2))
}

/// No peer of `(x, y)` holds `v`.
pub open spec fn placeable(g: GridView, x: int, y: int, v: u8) -> bool {
    forall|x2: int, y2: int|
        in_range(x2) && in_range(y2) && peers(x, y, x2, y2) ==> #[trigger] g[y2][x2].value != v
}

/// No two peers hold the same nonzero value.
pub open spec fn conflict_free(g: GridView) -> bool {
    forall|x1: int, y1: int, x2: int, y2: int|
        in_range(x1) && in_range(y1) && in_range(x2) && in_range(y2) && peers(x1, y1, x2, y2)
            && #[trigger] g[y1][x1].value != 0 ==> g[y1][x1].value != #[trigger] g[y2][x2].value
}

/// Every square holds a nonzero value.
pub open spec fn complete(g: GridView) -> bool {
    forall|x: int, y: int| in_range(x) && in_range(y) ==> #[trigger] g[y][x].value != 0
}

/// A solved board: every square holds a digit `1..=9` and no digit repeats in a
/// row, a column or a box, so each of them holds the digits `1..=9` once each.
pub open spec fn solved(g: GridView) -> bool {
    wf_grid(g) && complete(g) && conflict_free(g)
}

/// The values of two boards agree square by square.
pub open spec fn same_values(a: GridView, b: GridView) -> bool {
    forall|x: int, y: int| in_range(x) && in_range(y) ==> #[trigger] a[y][x].value == b[y][x].value
}

/// The executable board has nine rows of nine cells.
pub open spec fn shaped(g: Seq<Vec<Cell>>) -> bool {
    &&& g.len() == 9
    &&& forall|y: int| #![trigger g[y]] in_range(y) ==> g[y]@.len() == 9
}

pub proof fn lemma_shaped(g: Seq<Vec<Cell>>)
    requires
        wf_grid(grid_view(g)),
    ensures
        shaped(g),
        forall|x: int, y: int|
            in_range(x) && in_range(y) ==> #[trigger] g[y]@[x]@ == grid_view(g)[y][x],
{
    assert forall|y: int| in_range(y) implies #[trigger] g[y]@.len() == 9 by {
        assert(grid_view(g)[y] == row_view(g[y]));
    }
    assert forall|x: int, y: int| in_range(x) && in_range(y) implies #[trigger] g[y]@[x]@
        == grid_view(g)[y][x] by {
        assert(grid_view(g)[y] == row_view(g[y]));
    }
}

/// Copies a cell field by field.
pub fn clone_cell(c: &Cell) -> (r: Cell)
    ensures
        r@ == c@,
{
    Cell {
        x: c.x,
        y: c.y,
        value: c.value,
        candidates: c.candidates.clone(),
        candidate_index: c.candidate_index,
    }
}

/// A deep copy of the board, row by row and cell by cell.
pub fn clone_sudoku_grid(sudoku_grid: &Vec<Vec<Cell>>) -> (r: Vec<Vec<Cell>>)
    ensures
        grid_view(r@) == grid_view(sudoku_grid@),
{
    let mut clone: Vec<Vec<Cell>> = Vec::new();
    let mut y: usize = 0;
    while y < sudoku_grid.len()
        invariant
            y <= sudoku_grid@.len(),
            clone@.len() == y,
            forall|k: int| 0 <= k < y ==> #[trigger] row_view(clone@[k]) == row_view(sudoku_grid@[k]),
        decreases sudoku_grid@.len() - y,
    {
        let mut line: Vec<Cell> = Vec::new();
        let mut x: usize = 0;
        while x < sudoku_grid[y].len()
            invariant
                y < sudoku_grid@.len(),
                x <= sudoku_grid@[y as int]@.len(),
                line@.len() == x,
                forall|k: int| 0 <= k < x ==> #[trigger] line@[k]@ == sudoku_grid@[y as int]@[k]@,
            decreases sudoku_grid@[y as int]@.len() - x,
        {
            line.push(clone_cell(&sudoku_grid[y][x]));
            x = x + 1;
        }
        assert(row_view(line) =~= row_view(sudoku_grid@[y as int]));
        clone.push(line);
        y = y + 1;
    }
    assert(grid_view(clone@) =~= grid_view(sudoku_grid@));
    clone
}

} // verus!
