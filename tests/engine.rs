use sudoku::check::is_valid_cell_value;
use sudoku::grid::{clone_sudoku_grid, Cell};
use sudoku::parse::{build_sudoku_grid, ParseError};
use sudoku::propagate::{clean_candidates_by_boxes, clean_candidates_by_lines_columns};
use sudoku::search::{start_bruteforce_sudoku, SearchOutcome};
use sudoku::solve::{format_sudoku_grid, resolve_sudoku_grid};

const CLASSIC: &str = "5,3,0,0,7,0,0,0,0\n\
6,0,0,1,9,5,0,0,0\n\
0,9,8,0,0,0,0,6,0\n\
8,0,0,0,6,0,0,0,3\n\
4,0,0,8,0,3,0,0,1\n\
7,0,0,0,2,0,0,0,6\n\
0,6,0,0,0,0,2,8,0\n\
0,0,0,4,1,9,0,0,5\n\
0,0,0,0,8,0,0,7,9\n";

const CLASSIC_SOLVED: [[u8; 9]; 9] = [
    [5, 3, 4, 6, 7, 8, 9, 1, 2],
    [6, 7, 2, 1, 9, 5, 3, 4, 8],
    [1, 9, 8, 3, 4, 2, 5, 6, 7],
    [8, 5, 9, 7, 6, 1, 4, 2, 3],
    [4, 2, 6, 8, 5, 3, 7, 9, 1],
    [7, 1, 3, 9, 2, 4, 8, 5, 6],
    [9, 6, 1, 5, 3, 7, 2, 8, 4],
    [2, 8, 7, 4, 1, 9, 6, 3, 5],
    [3, 4, 5, 2, 8, 6, 1, 7, 9],
];

fn text_of(rows: &[[u8; 9]; 9]) -> String {
    let mut s = String::new();
    for row in rows.iter() {
        let line: Vec<String> = row.iter().map(|v| v.to_string()).collect();
        s.push_str(&line.join(","));
        s.push('\n');
    }
    s
}

fn values(g: &Vec<Vec<Cell>>) -> Vec<Vec<u8>> {
    g.iter().map(|r| r.iter().map(|c| c.value).collect()).collect()
}

fn assert_valid_solution(g: &Vec<Vec<Cell>>) {
    let v = values(g);
    for i in 0..9 {
        let mut row: Vec<u8> = v[i].clone();
        let mut col: Vec<u8> = (0..9).map(|y| v[y][i]).collect();
        let mut bx: Vec<u8> = (0..9).map(|k| v[i / 3 * 3 + k / 3][i % 3 * 3 + k % 3]).collect();
        row.sort();
        col.sort();
        bx.sort();
        let digits: Vec<u8> = (1..10).collect();
        assert_eq!(row, digits);
        assert_eq!(col, digits);
        assert_eq!(bx, digits);
    }
}

#[test]
fn classic_grid_is_solved() {
    let g = build_sudoku_grid(CLASSIC).unwrap();
    let (r, outcome) = resolve_sudoku_grid(g);
    assert_eq!(outcome, SearchOutcome::Solved);
    assert_eq!(values(&r)[0], vec![5, 3, 4, 6, 7, 8, 9, 1, 2]);
    let expected: Vec<Vec<u8>> = CLASSIC_SOLVED.iter().map(|r| r.to_vec()).collect();
    assert_eq!(values(&r), expected);
    assert_valid_solution(&r);
}

#[test]
fn propagation_alone_solves_easy_grid() {
    let mut rows = CLASSIC_SOLVED;
    for y in 0..9 {
        rows[y][(y * 4) % 9] = 0;
    }
    let g = build_sudoku_grid(&text_of(&rows)).unwrap();
    let mut p = clone_sudoku_grid(&g);
    clean_candidates_by_lines_columns(&mut p);
    clean_candidates_by_boxes(&mut p);
    let expected: Vec<Vec<u8>> = CLASSIC_SOLVED.iter().map(|r| r.to_vec()).collect();
    assert_eq!(values(&p), expected);
    for row in p.iter() {
        for c in row.iter() {
            assert!(c.candidates.is_empty());
            assert_eq!(c.candidate_index, 0);
        }
    }
    let mut searched = clone_sudoku_grid(&p);
    assert_eq!(start_bruteforce_sudoku(&mut searched), SearchOutcome::Solved);
    for y in 0..9 {
        for x in 0..9 {
            assert_eq!(searched[y][x].value, p[y][x].value);
            assert_eq!(searched[y][x].candidate_index, 0);
        }
    }
}

#[test]
fn two_fives_in_a_row_is_exhausted() {
    let mut rows = CLASSIC_SOLVED;
    rows[0][7] = 5;
    rows[0][8] = 0;
    rows[1][8] = 2;
    let g = build_sudoku_grid(&text_of(&rows)).unwrap();
    let (r, outcome) = resolve_sudoku_grid(g);
    assert_eq!(outcome, SearchOutcome::Exhausted);
    assert_eq!(r[0][8].value, 0);
    assert_eq!(values(&r)[0], vec![5, 3, 4, 6, 7, 8, 9, 5, 0]);
}

#[test]
fn row_with_eight_tokens_is_a_parse_error() {
    let text = CLASSIC.replace("4,0,0,8,0,3,0,0,1", "4,0,0,8,0,3,0,0");
    assert_eq!(
        build_sudoku_grid(&text).unwrap_err(),
        ParseError::WrongTokenCount { row: 4, count: 8 }
    );
}

#[test]
fn bad_tokens_are_reported_with_their_place() {
    let text = CLASSIC.replace("0,9,8,0,0,0,0,6,0", "0,9,8,0,x,0,0,6,0");
    assert_eq!(build_sudoku_grid(&text).unwrap_err(), ParseError::BadToken { row: 2, column: 4 });
    let text = CLASSIC.replace("0,0,0,0,8,0,0,7,9", "0,0,0,0,8,0,0,7,10");
    assert_eq!(build_sudoku_grid(&text).unwrap_err(), ParseError::BadToken { row: 8, column: 8 });
    let text = CLASSIC.replace("5,3,0,0,7,0,0,0,0", "5,3,,0,7,0,0,0,0");
    assert_eq!(build_sudoku_grid(&text).unwrap_err(), ParseError::BadToken { row: 0, column: 2 });
}

#[test]
fn wrong_number_of_lines_is_a_parse_error() {
    let text: String = CLASSIC.lines().take(8).map(|l| format!("{}\n", l)).collect();
    assert_eq!(build_sudoku_grid(&text).unwrap_err(), ParseError::WrongRowCount { rows: 8 });
    let text = format!("{}0,0,0,0,0,0,0,0,0\n", CLASSIC);
    assert_eq!(build_sudoku_grid(&text).unwrap_err(), ParseError::WrongRowCount { rows: 10 });
    assert_eq!(build_sudoku_grid("").unwrap_err(), ParseError::WrongRowCount { rows: 0 });
}

#[test]
fn parsing_fills_cells_and_candidates() {
    let g = build_sudoku_grid(CLASSIC).unwrap();
    assert_eq!(g.len(), 9);
    assert_eq!(g[0][0].value, 5);
    assert!(g[0][0].candidates.is_empty());
    assert_eq!(g[0][2].value, 0);
    assert_eq!(g[0][2].candidates, vec![1, 2, 3, 4, 5, 6, 7, 8, 9]);
    assert_eq!((g[7][3].x, g[7][3].y, g[7][3].value), (3, 7, 4));
    for row in g.iter() {
        for c in row.iter() {
            assert_eq!(c.candidate_index, 0);
        }
    }
}

#[test]
fn parsing_accepts_crlf_leading_zeros_and_no_final_newline() {
    let crlf = CLASSIC.replace('\n', "\r\n");
    let a = build_sudoku_grid(&crlf).unwrap();
    let b = build_sudoku_grid(CLASSIC.trim_end()).unwrap();
    let c = build_sudoku_grid(&CLASSIC.replacen("5,3,0", "005,3,00", 1)).unwrap();
    let base = values(&build_sudoku_grid(CLASSIC).unwrap());
    assert_eq!(values(&a), base);
    assert_eq!(values(&b), base);
    assert_eq!(values(&c), base);
}

#[test]
fn validity_checks_row_column_and_box() {
    let g = build_sudoku_grid(CLASSIC).unwrap();
    let mut cell = g[0][2].clone();
    assert!(!is_valid_cell_value(clone_sudoku_grid(&g), &mut cell, 3));
    assert!(!is_valid_cell_value(clone_sudoku_grid(&g), &mut cell, 8));
    assert!(!is_valid_cell_value(clone_sudoku_grid(&g), &mut cell, 9));
    assert!(is_valid_cell_value(clone_sudoku_grid(&g), &mut cell, 4));
    assert!(is_valid_cell_value(clone_sudoku_grid(&g), &mut cell, 1));
    // a box below the top band: (4, 4) shares its box with 6, 8, 3 and 2
    let mut centre = g[4][4].clone();
    assert!(!is_valid_cell_value(clone_sudoku_grid(&g), &mut centre, 2));
    assert!(is_valid_cell_value(clone_sudoku_grid(&g), &mut centre, 5));
    // the square itself does not count against its own value
    let mut given = g[0][0].clone();
    assert!(is_valid_cell_value(clone_sudoku_grid(&g), &mut given, 5));
    assert_eq!(given.value, 5);
}

#[test]
fn approved_values_do_not_appear_among_peers() {
    let g = build_sudoku_grid(CLASSIC).unwrap();
    let v = values(&g);
    for y in 0..9 {
        for x in 0..9 {
            for value in 1..10u8 {
                let mut cell = g[y][x].clone();
                if is_valid_cell_value(clone_sudoku_grid(&g), &mut cell, value) {
                    for k in 0..9 {
                        if k != x {
                            assert_ne!(v[y][k], value);
                        }
                        if k != y {
                            assert_ne!(v[k][x], value);
                        }
                        let (bx, by) = (x / 3 * 3 + k % 3, y / 3 * 3 + k / 3);
                        if (bx, by) != (x, y) {
                            assert_ne!(v[by][bx], value);
                        }
                    }
                }
            }
        }
    }
}

#[test]
fn row_and_column_pass_narrows_candidates() {
    let g = build_sudoku_grid(CLASSIC).unwrap();
    let mut p = clone_sudoku_grid(&g);
    clean_candidates_by_lines_columns(&mut p);
    // (2, 0): row 0 holds 5, 3, 7; column 2 holds 8
    assert_eq!(p[0][2].candidates, vec![1, 2, 4, 6, 9]);
    let mut b = clone_sudoku_grid(&p);
    clean_candidates_by_boxes(&mut b);
    // box 0 also holds 6 and 9
    assert_eq!(b[0][2].candidates, vec![1, 2, 4]);
    assert_eq!(values(&g), values(&clone_sudoku_grid(&g)));
}

#[test]
fn single_candidate_is_committed() {
    let mut rows = CLASSIC_SOLVED;
    rows[3][5] = 0;
    let g = build_sudoku_grid(&text_of(&rows)).unwrap();
    let mut p = clone_sudoku_grid(&g);
    clean_candidates_by_lines_columns(&mut p);
    assert_eq!(p[3][5].value, 1);
    assert!(p[3][5].candidates.is_empty());
}

fn propagated(g: &Vec<Vec<Cell>>) -> Vec<Vec<Cell>> {
    let mut p = clone_sudoku_grid(g);
    clean_candidates_by_lines_columns(&mut p);
    clean_candidates_by_boxes(&mut p);
    p
}

fn same_cells(a: &Vec<Vec<Cell>>, b: &Vec<Vec<Cell>>) -> bool {
    (0..9).all(|y| {
        (0..9).all(|x| a[y][x].value == b[y][x].value && a[y][x].candidates == b[y][x].candidates)
    })
}

#[test]
fn second_propagation_changes_nothing_when_candidates_are_consistent() {
    let mut rows = [[0u8; 9]; 9];
    rows[0][0] = 5;
    rows[4][7] = 3;
    let g = build_sudoku_grid(&text_of(&rows)).unwrap();
    let once = propagated(&g);
    assert_eq!(once[0][1].candidates, vec![1, 2, 3, 4, 6, 7, 8, 9]);
    assert_eq!(once[4][0].candidates, vec![1, 2, 4, 6, 7, 8, 9]);
    let twice = propagated(&once);
    assert!(same_cells(&once, &twice));
}

#[test]
fn second_propagation_can_narrow_after_late_commits() {
    let g = build_sudoku_grid(CLASSIC).unwrap();
    let once = propagated(&g);
    let twice = propagated(&once);
    assert!(!same_cells(&once, &twice));
    let thrice = propagated(&twice);
    let values_twice = values(&twice);
    for y in 0..9 {
        for x in 0..9 {
            assert!(values_twice[y][x] == 0 || thrice[y][x].value == values_twice[y][x]);
        }
    }
}

#[test]
fn empty_grid_search_terminates_solved() {
    let rows = [[0u8; 9]; 9];
    let g = build_sudoku_grid(&text_of(&rows)).unwrap();
    let (r, outcome) = resolve_sudoku_grid(g);
    assert_eq!(outcome, SearchOutcome::Solved);
    assert_valid_solution(&r);
    assert_eq!(values(&r)[0], vec![1, 2, 3, 4, 5, 6, 7, 8, 9]);
}

#[test]
fn search_on_grid_without_free_cells_is_solved_at_once() {
    let g = build_sudoku_grid(&text_of(&CLASSIC_SOLVED)).unwrap();
    let mut s = clone_sudoku_grid(&g);
    assert_eq!(start_bruteforce_sudoku(&mut s), SearchOutcome::Solved);
    assert_eq!(values(&s), values(&g));
}

#[test]
fn formatting_writes_spaced_digits() {
    let g = build_sudoku_grid(CLASSIC).unwrap();
    let text = String::from_utf8(format_sudoku_grid(&g)).unwrap();
    let lines: Vec<&str> = text.split('\n').collect();
    assert_eq!(lines.len(), 10);
    assert_eq!(lines[0], "5 3 0 0 7 0 0 0 0 ");
    assert_eq!(lines[8], "0 0 0 0 8 0 0 7 9 ");
    assert_eq!(lines[9], "");
}

#[test]
fn solved_output_reparses_after_spaces_become_commas() {
    let g = build_sudoku_grid(CLASSIC).unwrap();
    let (r, _) = resolve_sudoku_grid(g);
    let text = String::from_utf8(format_sudoku_grid(&r)).unwrap();
    let commas: String = text.lines().map(|l| format!("{}\n", l.trim_end().replace(' ', ","))).collect();
    let again = build_sudoku_grid(&commas).unwrap();
    assert_eq!(values(&again), values(&r));
    for row in again.iter() {
        for c in row.iter() {
            assert!(c.candidates.is_empty());
        }
    }
}
