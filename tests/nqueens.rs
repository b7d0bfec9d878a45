use exact_cover::nqueens::{
    count_all_nqueens_solutions_with_exact_cover, solve_nqueens_problem_with_exact_cover, Board,
    NQueensProblem, NQueensSolution,
};

fn assert_valid_nqueens_solution(nqueens_solution: NQueensSolution) {
    let board = nqueens_solution.board;
    let n = board.0.len();
    let mut row_counts = vec![0; n];
    let mut col_counts = vec![0; n];
    let mut diag1_counts = vec![0; 2 * n - 1];
    let mut diag2_counts = vec![0; 2 * n - 1];
    for row in 0..n {
        for col in 0..n {
            if board.0[row][col] == 1 {
                row_counts[row] += 1;
                col_counts[col] += 1;
                diag1_counts[col + n - 1 - row] += 1;
                diag2_counts[col + row] += 1;
            }
        }
    }
    for i in 0..n {
        assert_eq!(row_counts[i], 1);
        assert_eq!(col_counts[i], 1);
    }
    for i in 0..2 * n - 1 {
        assert!(diag1_counts[i] <= 1);
        assert!(diag2_counts[i] <= 1);
    }
}

#[test]
fn nqueens_test_fmt() {
    let board = Board(vec![
        vec![1, 0, 0, 0, 0, 0, 0, 0],
        vec![0, 0, 0, 0, 0, 0, 1, 0],
        vec![0, 0, 0, 0, 1, 0, 0, 0],
        vec![0, 0, 0, 0, 0, 0, 0, 1],
        vec![0, 1, 0, 0, 0, 0, 0, 0],
        vec![0, 0, 0, 1, 0, 0, 0, 0],
        vec![0, 0, 0, 0, 0, 1, 0, 0],
        vec![0, 0, 1, 0, 0, 0, 0, 0],
    ]);

    let fmt = board.to_string();

    let expected_fmt = "\
Q.......
......Q.
....Q...
.......Q
.Q......
...Q....
.....Q..
..Q.....
"
    .to_string();
    assert_eq!(fmt, expected_fmt)
}

#[test]
fn test_nqueens_problem() {
    let nqueens_problem = NQueensProblem::new(8);

    let solution = solve_nqueens_problem_with_exact_cover(&nqueens_problem);

    assert!(solution.is_some());
    let solution = solution.unwrap();
    assert_valid_nqueens_solution(solution);
}

fn count(n: u16) -> u64 {
    count_all_nqueens_solutions_with_exact_cover(&NQueensProblem::new(n))
}

#[test]
fn nqueens_count_1() {
    assert_eq!(count(1), 1);
}

#[test]
fn nqueens_count_2() {
    assert_eq!(count(2), 0);
}

#[test]
fn nqueens_count_3() {
    assert_eq!(count(3), 0);
}

#[test]
fn nqueens_count_4() {
    assert_eq!(count(4), 2);
}

#[test]
fn nqueens_count_5() {
    assert_eq!(count(5), 10);
}

#[test]
fn nqueens_count_6() {
    assert_eq!(count(6), 4);
}

#[test]
fn nqueens_count_7() {
    assert_eq!(count(7), 40);
}

#[test]
fn nqueens_count_8() {
    assert_eq!(count(8), 92);
}

#[test]
fn nqueens_count_9() {
    assert_eq!(count(9), 352);
}

#[test]
fn nqueens_count_10() {
    assert_eq!(count(10), 724);
}

#[test]
fn nqueens_no_placement_for_three() {
    assert!(solve_nqueens_problem_with_exact_cover(&NQueensProblem::new(3)).is_none());
}

#[test]
fn nqueens_one_by_one_board() {
    let solution = solve_nqueens_problem_with_exact_cover(&NQueensProblem::new(1)).unwrap();
    assert_eq!(solution.board, Board(vec![vec![1]]));
    assert_eq!(solution.board.to_string(), "Q\n");
}
