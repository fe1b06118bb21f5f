use vstd::prelude::*;
use vstd::string::StringSliceAdditionalSpecFns;
use crate::grid::{Cell, CellView, GridView, grid_view, in_range, row_view, wf_cell, wf_grid};

verus! {

/// Why a text is not a board.
#[derive(Debug, Clone, Copy, PartialEq, Eq, Structural)]
pub enum ParseError {
    /// The text does not hold nine lines.
    WrongRowCount { rows: usize },
    /// Line `row` does not hold nine comma-separated tokens.
    WrongTokenCount { row: usize, count: usize },
    /// The token at `column` of line `row` is not a digit `0..=9`.
    BadToken { row: usize, column: usize },
}

/// The pieces of `s` between occurrences of `sep`; an empty `s` is one empty piece.
pub open spec fn split_on(s: Seq<u8>, sep: u8) -> Seq<Seq<u8>>
    decreases s.len(),
{
    if s.len() == 0 {
        seq![Seq::empty()]
    } else {
        let p = split_on(s.drop_last(), sep);
        if s.last() == sep {
            p.push(Seq::empty())
        } else {
            p.update(p.len() - 1, p.last().push(s.last()))
        }
    }
}

/// A line without its trailing carriage return, if it has one.
pub open spec fn strip_cr(l: Seq<u8>) -> Seq<u8> {
    if l.len() > 0 && l.last() == 13u8 {
        l.drop_last()
    } else {
        l
    }
}

/// The lines of a text: pieces between line feeds, without a carriage return
/// at their end; a line feed that ends the text opens no further line.
pub open spec fn text_lines(b: Seq<u8>) -> Seq<Seq<u8>> {
    let parts = split_on(b, 10u8);
    let parts = if parts.last().len() == 0 {
        parts.drop_last()
    } else {
        parts
    };
    Seq::new(parts.len(), |i: int| strip_cr(parts[i]))
}

pub open spec fn is_digit(c: u8) -> bool {
    48 <= c <= 57
}

/// A decimal number `0..=9`: one digit, perhaps after leading zeros.
pub open spec fn token_ok(t: Seq<u8>) -> bool {
    &&& t.len() >= 1
    &&& is_digit(t.last())
    &&& forall|i: int| 0 <= i < t.len() - 1 ==> #[trigger] t[i] == 48u8
}

pub open spec fn token_value(t: Seq<u8>) -> u8 {
    (t.last() - 48) as u8
}

pub open spec fn row_tokens(l: Seq<u8>) -> Seq<Seq<u8>> {
    split_on(l, 44u8)
}

/// A line of nine comma-separated digits.
pub open spec fn row_ok(l: Seq<u8>) -> bool {
    &&& row_tokens(l).len() == 9
    &&& forall|i: int| 0 <= i < 9 ==> token_ok(#[trigger] row_tokens(l)[i])
}

/// The candidates of an unassigned cell before any propagation: `1..=9`.
pub open spec fn all_digits() -> Seq<u8> {
    seq![1u8, 2u8, 3u8, 4u8, 5u8, 6u8, 7u8, 8u8, 9u8]
}

/// The fresh cell at `(x, y)` holding `v`.
pub open spec fn fresh_cell(x: int, y: int, v: u8) -> CellView {
    CellView {
        x: x as u8,
        y: y as u8,
        value: v,
        candidates: if v == 0 {
            all_digits()
        } else {
            Seq::empty()
        },
        candidate_index: 0,
    }
}

/// The board that nine well-formed lines describe.
pub open spec fn initial_grid(lines: Seq<Seq<u8>>) -> GridView {
    Seq::new(
        9,
        |y: int| Seq::new(9, |x: int| fresh_cell(x, y, token_value(row_tokens(lines[y])[x]))),
    )
}

proof fn lemma_split_nonempty(s: Seq<u8>, sep: u8)
    ensures
        split_on(s, sep).len() >= 1,
    decreases s.len(),
{
    if s.len() > 0 {
        lemma_split_nonempty(s.drop_last(), sep);
    }
}

/// Cuts `s` at each `sep`.
fn split_bytes(s: &[u8], sep: u8) -> (r: Vec<Vec<u8>>)
    ensures
        r@.len() == split_on(s@, sep).len(),
        forall|i: int| 0 <= i < r@.len() ==> #[trigger] r@[i]@ == split_on(s@, sep)[i],
{
    let mut done: Vec<Vec<u8>> = Vec::new();
    let mut piece: Vec<u8> = Vec::new();
    let mut i: usize = 0;
    while i < s.len()
        invariant
            i <= s@.len(),
            done@.len() + 1 == split_on(s@.subrange(0, i as int), sep).len(),
            forall|k: int| 0 <= k < done@.len() ==> #[trigger] done@[k]@ == split_on(
                s@.subrange(0, i as int),
                sep,
            )[k],
            piece@ == split_on(s@.subrange(0, i as int), sep).last(),
        decreases s@.len() - i,
    {
        let ghost pre = s@.subrange(0, i as int);
        assert(s@.subrange(0, i as int + 1).drop_last() =~= pre);
        assert(s@.subrange(0, i as int + 1).last() == s@[i as int]);
        proof {
            lemma_split_nonempty(pre, sep);
        }
        if s[i] == sep {
            done.push(piece);
            piece = Vec::new();
        } else {
            piece.push(s[i]);
        }
        i = i + 1;
    }
    assert(s@.subrange(0, s@.len() as int) =~= s@);
    done.push(piece);
    done
}

/// A well-formed token's digit, or `None`.
fn parse_token(t: &Vec<u8>) -> (r: Option<u8>)
    ensures
        r.is_some() == token_ok(t@),
        r.is_some() ==> r.unwrap() == token_value(t@),
{
    if t.len() == 0 {
        return None;
    }
    let last = t[t.len() - 1];
    if last < 48 || last > 57 {
        return None;
    }
    let mut i: usize = 0;
    while i < t.len() - 1
        invariant
            t@.len() >= 1,
            i <= t@.len() - 1,
            forall|k: int| 0 <= k < i ==> #[trigger] t@[k] == 48u8,
        decreases t@.len() - i,
    {
        if t[i] != 48 {
            return None;
        }
        i = i + 1;
    }
    Some(last - 48)
}

proof fn lemma_initial_grid_wf(lines: Seq<Seq<u8>>)
    requires
        lines.len() == 9,
        forall|y: int| 0 <= y < 9 ==> row_ok(#[trigger] lines[y]),
    ensures
        wf_grid(initial_grid(lines)),
{
    let g = initial_grid(lines);
    assert forall|x: int, y: int| in_range(x) && in_range(y) implies wf_cell(#[trigger] g[y][x], x, y) by {
        assert(row_ok(lines[y]));
        assert(token_ok(row_tokens(lines[y])[x]));
        let c = g[y][x];
        assert forall|k: int| 0 <= k < c.candidates.len() implies 1 <= #[trigger] c.candidates[k] <= 9 by {
            if c.value == 0 {
                assert(c.candidates == all_digits());
            }
        }
    }
}

/// A line without its trailing carriage return, if it has one.
fn without_cr(l: &Vec<u8>) -> (r: Vec<u8>)
    ensures
        r@ == strip_cr(l@),
{
    let mut r = l.clone();
    if r.len() > 0 && r[r.len() - 1] == 13 {
        r.pop();
    }
    r
}

/// The cells of line `y` of the text, or where the line goes wrong.
fn parse_row(line: &Vec<u8>, y: usize) -> (r: Result<Vec<Cell>, ParseError>)
    requires
        y < 9,
    ensures
        match r {
            Ok(cells) => row_ok(line@) && row_view(cells) == Seq::new(
                9,
                |x: int| fresh_cell(x, y as int, token_value(row_tokens(line@)[x])),
            ),
            Err(ParseError::WrongTokenCount { row, count }) => row == y && count == row_tokens(
                line@,
            ).len() && count != 9,
            Err(ParseError::BadToken { row, column }) => {
                &&& row == y
                &&& row_tokens(line@).len() == 9
                &&& column < 9
                &&& !token_ok(row_tokens(line@)[column as int])
                &&& forall|c: int| 0 <= c < column ==> token_ok(#[trigger] row_tokens(line@)[c])
            },
            Err(ParseError::WrongRowCount { .. }) => false,
        },
{
    let toks = split_bytes(line.as_slice(), 44);
    if toks.len() != 9 {
        return Err(ParseError::WrongTokenCount { row: y, count: toks.len() });
    }
    let mut cells: Vec<Cell> = Vec::new();
    let mut x: usize = 0;
    while x < 9
        invariant
            y < 9,
            x <= 9,
            toks@.len() == 9,
            row_tokens(line@).len() == 9,
            forall|i: int| 0 <= i < 9 ==> #[trigger] toks@[i]@ == row_tokens(line@)[i],
            forall|c: int| 0 <= c < x ==> token_ok(#[trigger] row_tokens(line@)[c]),
            cells@.len() == x,
            forall|c: int| 0 <= c < x ==> #[trigger] cells@[c]@ == fresh_cell(
                c,
                y as int,
                token_value(row_tokens(line@)[c]),
            ),
        decreases 9 - x,
    {
        match parse_token(&toks[x]) {
            None => {
                return Err(ParseError::BadToken { row: y, column: x });
            },
            Some(v) => {
                let candidates: Vec<u8> = if v == 0 {
                    vec![1u8, 2u8, 3u8, 4u8, 5u8, 6u8, 7u8, 8u8, 9u8]
                } else {
                    Vec::new()
                };
                assert(v == 0 ==> candidates@ =~= all_digits());
                cells.push(Cell { x: x as u8, y: y as u8, value: v, candidates, candidate_index: 0 });
            },
        }
        x = x + 1;
    }
    assert(row_view(cells) =~= Seq::new(
        9,
        |x: int| fresh_cell(x, y as int, token_value(row_tokens(line@)[x])),
    ));
    Ok(cells)
}

/// Reads a board from text: nine lines of nine comma-separated digits `0..=9`,
/// `0` for an unassigned square. An unassigned cell starts with the candidates
/// `1..=9`, an assigned one with none. The first fault found, line by line and
/// token by token, is reported.
pub fn build_sudoku_grid(text: &str) -> (r: Result<Vec<Vec<Cell>>, ParseError>)
    ensures
        match r {
            Ok(g) => {
                &&& text_lines(text.spec_bytes()).len() == 9
                &&& forall|y: int| 0 <= y < 9 ==> row_ok(#[trigger] text_lines(text.spec_bytes())[y])
                &&& grid_view(g@) == initial_grid(text_lines(text.spec_bytes()))
                &&& wf_grid(grid_view(g@))
            },
            Err(ParseError::WrongRowCount { rows }) => rows == text_lines(text.spec_bytes()).len()
                && rows != 9,
            Err(ParseError::WrongTokenCount { row, count }) => {
                &&& text_lines(text.spec_bytes()).len() == 9
                &&& row < 9
                &&& forall|y: int| 0 <= y < row ==> row_ok(#[trigger] text_lines(text.spec_bytes())[y])
                &&& count == row_tokens(text_lines(text.spec_bytes())[row as int]).len()
                &&& count != 9
            },
            Err(ParseError::BadToken { row, column }) => {
                &&& text_lines(text.spec_bytes()).len() == 9
                &&& row < 9
                &&& forall|y: int| 0 <= y < row ==> row_ok(#[trigger] text_lines(text.spec_bytes())[y])
                &&& row_tokens(text_lines(text.spec_bytes())[row as int]).len() == 9
                &&& column < 9
                &&& !token_ok(row_tokens(text_lines(text.spec_bytes())[row as int])[column as int])
                &&& forall|c: int| 0 <= c < column ==> token_ok(
                    #[trigger] row_tokens(text_lines(text.spec_bytes())[row as int])[c],
                )
            },
        },
{
    let ghost lines = text_lines(text.spec_bytes());
    let parts = split_bytes(text.as_bytes(), 10);
    proof {
        lemma_split_nonempty(text.spec_bytes(), 10u8);
    }
    let mut n = parts.len();
    if parts[n - 1].len() == 0 {
        n = n - 1;
    }
    if n != 9 {
        return Err(ParseError::WrongRowCount { rows: n });
    }
    let mut g: Vec<Vec<Cell>> = Vec::new();
    let mut y: usize = 0;
    while y < 9
        invariant
            y <= 9,
            lines == text_lines(text.spec_bytes()),
            lines.len() == 9,
            parts@.len() >= 9,
            forall|i: int| 0 <= i < 9 ==> #[trigger] lines[i] == strip_cr(parts@[i]@),
            forall|i: int| 0 <= i < y ==> row_ok(#[trigger] lines[i]),
            g@.len() == y,
            forall|i: int| 0 <= i < y ==> #[trigger] row_view(g@[i]) == initial_grid(lines)[i],
        decreases 9 - y,
    {
        let line = without_cr(&parts[y]);
        match parse_row(&line, y) {
            Ok(cells) => {
                assert(row_view(cells) =~= initial_grid(lines)[y as int]);
                g.push(cells);
            },
            Err(e) => {
                return Err(e);
            },
        }
        y = y + 1;
    }
    assert(grid_view(g@) =~= initial_grid(lines));
    proof {
        lemma_initial_grid_wf(lines);
    }
    Ok(g)
}

} // verus!
