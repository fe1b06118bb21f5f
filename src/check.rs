use vstd::prelude::*;
use crate::grid::{Cell, grid_view, in_range, lemma_shaped, shaped, peers, placeable, same_box, wf_grid};

verus! {

/// Whether `value` may be placed at the square of `cell`: no other square of
/// its row, its column or its 3x3 box holds `value` in `sudoku_grid`.
/// The board is taken by value, as a snapshot; `cell` is left as it is.
pub fn is_valid_cell_value(sudoku_grid: Vec<Vec<Cell>>, cell: &mut Cell, value: u8) -> (r: bool)
    requires
        wf_grid(grid_view(sudoku_grid@)),
        old(cell).x < 9,
        old(cell).y < 9,
    ensures
        r == placeable(grid_view(sudoku_grid@), old(cell).x as int, old(cell).y as int, value),
        *final(cell) == *old(cell),
{
    let ghost g = grid_view(sudoku_grid@);
    proof {
        lemma_shaped(sudoku_grid@);
    }
    let cx = cell.x as usize;
    let cy = cell.y as usize;
    assert(cx == old(cell).x && cy == old(cell).y);
    let mut x: usize = 0;
    while x < 9
        invariant
            g == grid_view(sudoku_grid@),
            wf_grid(g),
            shaped(sudoku_grid@),
            forall|x: int, y: int|
                in_range(x) && in_range(y) ==> #[trigger] sudoku_grid@[y]@[x]@ == g[y][x],
            cx < 9,
            cx == old(cell).x && cy == old(cell).y,
            cy < 9,
            x <= 9,
            forall|x2: int| 0 <= x2 < x && x2 != cx ==> #[trigger] g[cy as int][x2].value != value,
        decreases 9 - x,
    {
        if x != cx && sudoku_grid[cy][x].value == value {
            assert(peers(cx as int, cy as int, x as int, cy as int));
            assert(sudoku_grid@[cy as int]@[x as int]@ == g[cy as int][x as int]);
            return false;
        }
        x = x + 1;
    }
    let mut y: usize = 0;
    while y < 9
        invariant
            g == grid_view(sudoku_grid@),
            wf_grid(g),
            shaped(sudoku_grid@),
            forall|x: int, y: int|
                in_range(x) && in_range(y) ==> #[trigger] sudoku_grid@[y]@[x]@ == g[y][x],
            cx < 9,
            cx == old(cell).x && cy == old(cell).y,
            cy < 9,
            y <= 9,
            forall|y2: int| 0 <= y2 < y && y2 != cy ==> #[trigger] g[y2][cx as int].value != value,
        decreases 9 - y,
    {
        if y != cy && sudoku_grid[y][cx].value == value {
            assert(peers(cx as int, cy as int, cx as int, y as int));
            assert(sudoku_grid@[y as int]@[cx as int]@ == g[y as int][cx as int]);
            return false;
        }
        y = y + 1;
    }
    let bx: usize = cx / 3 * 3;
    let by: usize = cy / 3 * 3;
    let mut dy: usize = 0;
    while dy < 3
        invariant
            g == grid_view(sudoku_grid@),
            wf_grid(g),
            shaped(sudoku_grid@),
            forall|x: int, y: int|
                in_range(x) && in_range(y) ==> #[trigger] sudoku_grid@[y]@[x]@ == g[y][x],
            cx < 9,
            cx == old(cell).x && cy == old(cell).y,
            cy < 9,
            bx == cx / 3 * 3,
            by == cy / 3 * 3,
            dy <= 3,
            forall|x2: int, y2: int|
                bx <= x2 < bx + 3 && by <= y2 < by + dy && (x2 != cx || y2 != cy)
                    ==> #[trigger] g[y2][x2].value != value,
        decreases 3 - dy,
    {
        let mut dx: usize = 0;
        while dx < 3
            invariant
                g == grid_view(sudoku_grid@),
                wf_grid(g),
                shaped(sudoku_grid@),
                forall|x: int, y: int|
                    in_range(x) && in_range(y) ==> #[trigger] sudoku_grid@[y]@[x]@ == g[y][x],
            shaped(sudoku_grid@),
            forall|x: int, y: int|
                in_range(x) && in_range(y) ==> #[trigger] sudoku_grid@[y]@[x]@ == g[y][x],
                cx < 9,
                cx == old(cell).x && cy == old(cell).y,
            cx == old(cell).x && cy == old(cell).y,
                cy < 9,
                bx == cx / 3 * 3,
                by == cy / 3 * 3,
                dy < 3,
                dx <= 3,
                forall|x2: int, y2: int|
                    bx <= x2 < bx + 3 && by <= y2 < by + dy && (x2 != cx || y2 != cy)
                        ==> #[trigger] g[y2][x2].value != value,
                forall|x2: int|
                    bx <= x2 < bx + dx && (x2 != cx || by + dy != cy)
                        ==> #[trigger] g[by + dy][x2].value != value,
            decreases 3 - dx,
        {
            let x2 = bx + dx;
            let y2 = by + dy;
            if (x2 != cx || y2 != cy) && sudoku_grid[y2][x2].value == value {
                assert(same_box(cx as int, cy as int, x2 as int, y2 as int));
                assert(peers(cx as int, cy as int, x2 as int, y2 as int));
                assert(sudoku_grid@[y2 as int]@[x2 as int]@ == g[y2 as int][x2 as int]);
            return false;
            }
            dx = dx + 1;
        }
        dy = dy + 1;
    }
    assert forall|x2: int, y2: int|
        in_range(x2) && in_range(y2) && peers(cx as int, cy as int, x2, y2)
            implies #[trigger] g[y2][x2].value != value by {
        if y2 != cy && x2 != cx {
            assert(bx <= x2 < bx + 3 && by <= y2 < by + 3);
        }
    }
    true
}

} // verus!
