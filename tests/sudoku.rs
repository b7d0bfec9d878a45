use exact_cover::exact_cover::ExactCoverSolution;
use exact_cover::sudoku::{
    convert_to_exact_cover_problem, convert_to_sudoku_solution, solve_sudoku_with_exact_cover,
    Board, BoardReadError,
};

fn get_board1() -> Board {
    Board(vec![
        vec![5, 3, 0, 0, 7, 0, 0, 0, 0],
        vec![6, 0, 0, 1, 9, 5, 0, 0, 0],
        vec![0, 9, 8, 0, 0, 0, 0, 6, 0],
        vec![8, 0, 0, 0, 6, 0, 0, 0, 3],
        vec![4, 0, 0, 8, 0, 3, 0, 0, 1],
        vec![7, 0, 0, 0, 2, 0, 0, 0, 6],
        vec![0, 6, 0, 0, 0, 7, 2, 8, 0],
        vec![0, 0, 0, 4, 1, 9, 0, 0, 5],
        vec![0, 0, 0, 0, 8, 0, 0, 7, 9],
    ])
}

fn get_board1_solved() -> Board {
    Board(vec![
        vec![5, 3, 4, 6, 7, 8, 9, 1, 2],
        vec![6, 7, 2, 1, 9, 5, 3, 4, 8],
        vec![1, 9, 8, 3, 4, 2, 5, 6, 7],
        vec![8, 5, 9, 7, 6, 1, 4, 2, 3],
        vec![4, 2, 6, 8, 5, 3, 7, 9, 1],
        vec![7, 1, 3, 9, 2, 4, 8, 5, 6],
        vec![9, 6, 1, 5, 3, 7, 2, 8, 4],
        vec![2, 8, 7, 4, 1, 9, 6, 3, 5],
        vec![3, 4, 5, 2, 8, 6, 1, 7, 9],
    ])
}

fn assert_valid_sudoku_solution(board: Board) {
    for i in 0..9 {
        let mut digits = vec![false; 9];
        for j in 0..9 {
            let digit = board.0[i][j];
            assert_ne!(digit, 0, "Row {} has a cell with no digit", i);
            assert!(!digits[(digit - 1) as usize], "Row {} has a duplicate digit {}", i, digit);
            digits[(digit - 1) as usize] = true;
        }
    }
    for j in 0..9 {
        let mut digits = vec![false; 9];
        for i in 0..9 {
            let digit = board.0[i][j];
            assert_ne!(digit, 0, "Column {} has a cell with no digit", j);
            assert!(!digits[(digit - 1) as usize], "Column {} has a duplicate digit {}", j, digit);
            digits[(digit - 1) as usize] = true;
        }
    }
    for block in 0..9 {
        let mut digits = vec![false; 9];
        for i in (block / 3 * 3)..(block / 3 * 3 + 3) {
            for j in (block % 3 * 3)..(block % 3 * 3 + 3) {
                let digit = board.0[i][j];
                assert_ne!(digit, 0, "Block {} has a cell with no digit", block);
                assert!(!digits[(digit - 1) as usize], "Block {} has a duplicate digit {}", block, digit);
                digits[(digit - 1) as usize] = true;
            }
        }
    }
}

fn lines(text: &str) -> Vec<String> {
    text.lines().map(|l| l.to_string()).collect()
}

const BOARD1_TEXT: &str = "\
53. .7. ...
6.. 195 ...
.98 ... .6.

8.. .6. ..3
4.. 8.3 ..1
7.. .2. ..6

.6. ..7 28.
... 419 ..5
... .8. .79
";

#[test]
fn sudoku_test_fmt() {
    let board = get_board1();

    let fmt = board.to_string();

    let expected_fmt = BOARD1_TEXT.to_string();
    assert_eq!(fmt, expected_fmt)
}

#[test]
fn test_solve_sudoku_with_exact_cover() {
    let board = get_board1();

    let solution = solve_sudoku_with_exact_cover(&board);

    assert!(solution.is_some());
    let expected_solution = get_board1_solved();
    assert_eq!(solution.clone().unwrap(), expected_solution);
    assert_valid_sudoku_solution(solution.clone().unwrap());
}

#[test]
fn sudoku_read_formatted_text() {
    assert_eq!(Board::read_from_lines(&lines(BOARD1_TEXT)), Ok(get_board1()));
}

#[test]
fn sudoku_read_without_spaces_or_blank_lines() {
    let text = "53..7....\n6..195...\n.98....6.\n8...6...3\n4..8.3..1\n7...2...6\n.6...728.\n...419..5\n....8..79\n";
    assert_eq!(Board::read_from_lines(&lines(text)), Ok(get_board1()));
}

#[test]
fn sudoku_read_extra_spaces_and_newlines() {
    let text = "\n\n5 3 .  . 7 .  . . .\n\n6 . .  1 9 5  . . .\n. 9 8  . . .  . 6 .\n\n\n8 . .  . 6 .  . . 3\n4 . .  8 . 3  . . 1\n7 . .  . 2 .  . . 6\n. 6 .  . . 7  2 8 .\n. . .  4 1 9  . . 5\n. . .  . 8 .  . 7 9\n\n";
    assert_eq!(Board::read_from_lines(&lines(text)), Ok(get_board1()));
}

#[test]
fn sudoku_read_too_wide() {
    let text = "53..7....1\n6..195...\n.98....6.\n8...6...3\n4..8.3..1\n7...2...6\n.6...728.\n...419..5\n....8..79\n";
    assert_eq!(Board::read_from_lines(&lines(text)), Err(BoardReadError::InvalidSize));
}

#[test]
fn sudoku_read_too_long() {
    let text = "53..7....\n6..195...\n.98....6.\n8...6...3\n4..8.3..1\n7...2...6\n.6...728.\n...419..5\n....8..79\n1........\n";
    assert_eq!(Board::read_from_lines(&lines(text)), Err(BoardReadError::InvalidSize));
}

#[test]
fn sudoku_read_missing_character() {
    let text = "53..7...\n6..195...\n.98....6.\n8...6...3\n4..8.3..1\n7...2...6\n.6...728.\n...419..5\n....8..79\n";
    assert_eq!(Board::read_from_lines(&lines(text)), Err(BoardReadError::InvalidSize));
}

#[test]
fn sudoku_read_too_few_lines() {
    let text = "53..7....\n6..195...\n";
    assert_eq!(Board::read_from_lines(&lines(text)), Err(BoardReadError::InvalidSize));
}

#[test]
fn sudoku_read_invalid_character() {
    let text = "53..7...x\n6..195...\n.98....6.\n8...6...3\n4..8.3..1\n7...2...6\n.6...728.\n...419..5\n....8..79\n";
    assert_eq!(Board::read_from_lines(&lines(text)), Err(BoardReadError::InvalidCharacter));
}

#[test]
fn sudoku_solution_from_option_names() {
    let solution = ExactCoverSolution {
        selected_options: vec!["r0c0d5".to_string(), "r8c7d3".to_string(), "init".to_string()],
    };
    let board = convert_to_sudoku_solution(solution);
    assert_eq!(board.0[0][0], 5);
    assert_eq!(board.0[8][7], 3);
    assert_eq!(board.0[4][4], 0);
}

#[test]
fn sudoku_conflicting_clues_have_no_solution() {
    let mut board = get_board1();
    board.0[0][2] = 5;
    assert!(solve_sudoku_with_exact_cover(&board).is_none());
}

#[test]
fn sudoku_problem_has_all_items_and_options() {
    let problem = convert_to_exact_cover_problem(&get_board1()).unwrap();
    assert_eq!(problem.items.len(), 324);
    assert_eq!(problem.options.len(), 729);
    assert_eq!(problem.inc.required.len(), 31);
}

#[test]
fn sudoku_fmt_wide_cell() {
    let mut board = get_board1();
    board.0[0][0] = 12;
    assert!(board.to_string().starts_with("123. .7. ...\n"));
}

#[test]
fn sudoku_declared_items_and_options() {
    let problem = convert_to_exact_cover_problem(&get_board1()).unwrap();
    assert_eq!(problem.items[0], "r0c0");
    assert_eq!(problem.items[80], "r8c8");
    assert_eq!(problem.items[81], "r0d1");
    assert_eq!(problem.items[162], "c0d1");
    assert_eq!(problem.items[323], "b8d9");
    // The options of block 4, digit 5: its nine cells in row order.
    let block = &problem.inc.covered_by[243 + 9 * 4 + 4];
    let names: Vec<&str> = block.iter().map(|&o| problem.options[o].as_str()).collect();
    assert_eq!(
        names,
        vec!["r3c3d5", "r3c4d5", "r3c5d5", "r4c3d5", "r4c4d5", "r4c5d5", "r5c3d5", "r5c4d5", "r5c5d5"]
    );
    let clues: Vec<&str> = problem.inc.required.iter().map(|&o| problem.options[o].as_str()).collect();
    assert_eq!(&clues[..4], &["r0c0d5", "r0c1d3", "r0c4d7", "r1c0d6"]);
}

#[test]
fn sudoku_later_name_wins_for_a_cell() {
    let solution = ExactCoverSolution {
        selected_options: vec!["r2c3d4".to_string(), "r2c3d9".to_string(), "r9c0d1".to_string()],
    };
    let board = convert_to_sudoku_solution(solution);
    assert_eq!(board.0[2][3], 9);
    assert_eq!(board.0.iter().flatten().filter(|&&v| v != 0).count(), 1);
}

#[test]
fn sudoku_solved_board_is_its_own_completion() {
    let solved = get_board1_solved();
    assert_eq!(solve_sudoku_with_exact_cover(&solved), Some(get_board1_solved()));
}
