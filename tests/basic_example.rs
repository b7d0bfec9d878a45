use exact_cover::basic_example::{solve_basic_example_with_exact_cover, BasicExampleProblem};

fn assert_eq_ignore_order(a: &[String], b: &[String]) {
    let mut a: Vec<&String> = a.iter().collect();
    let mut b: Vec<&String> = b.iter().collect();
    a.sort();
    b.sort();
    assert_eq!(a, b);
}

#[test]
fn test_zero_items() {
    let basic_example = BasicExampleProblem {
        required_items: vec![],
        optional_items: vec![],
        options: vec![],
    };

    let solution = solve_basic_example_with_exact_cover(&basic_example);

    assert!(solution.is_some());
    let selected_options = solution.unwrap().selected_options;
    let right: Vec<&str> = vec![];
    assert_eq!(selected_options, right);
}

#[test]
fn test_zero_options() {
    let basic_example = BasicExampleProblem {
        required_items: vec!["A", "B", "C", "D", "E", "F", "G"],
        optional_items: vec![],
        options: vec![],
    };

    let solution = solve_basic_example_with_exact_cover(&basic_example);

    assert!(solution.is_none());
}

#[test]
fn test_only_optional_items_and_zero_options() {
    let basic_example = BasicExampleProblem {
        required_items: vec![],
        optional_items: vec!["A", "B", "C", "D", "E", "F", "G"],
        options: vec![],
    };

    let solution = solve_basic_example_with_exact_cover(&basic_example);

    assert!(solution.is_some());
    let selected_options = solution.unwrap().selected_options;
    let right: Vec<&str> = vec![];
    assert_eq!(selected_options, right);
}

#[test]
fn test_one_item() {
    let basic_example = BasicExampleProblem {
        required_items: vec!["A"],
        optional_items: vec![],
        options: vec!["A"],
    };

    let solution = solve_basic_example_with_exact_cover(&basic_example);

    assert!(solution.is_some());
    let selected_options = solution.unwrap().selected_options;
    assert_eq!(selected_options, vec!["A"]);
}

#[test]
fn test_choose_all_two_options() {
    let basic_example = BasicExampleProblem {
        required_items: vec!["A", "B"],
        optional_items: vec![],
        options: vec!["A", "B"],
    };

    let solution = solve_basic_example_with_exact_cover(&basic_example);

    assert!(solution.is_some());
    let selected_options = solution.unwrap().selected_options;
    assert_eq_ignore_order(&selected_options, &vec!["A".to_string(), "B".to_string()]);
}

#[test]
fn test_choose_two_of_three_options_for_three_items() {
    let basic_example = BasicExampleProblem {
        required_items: vec!["A", "B", "C"],
        optional_items: vec![],
        options: vec!["AB", "AC", "C"],
    };

    let solution = solve_basic_example_with_exact_cover(&basic_example);

    assert!(solution.is_some());
    let selected_options = solution.unwrap().selected_options;
    assert_eq_ignore_order(&selected_options, &vec!["AB".to_string(), "C".to_string()])
}

#[test]
fn test_no_solution_for_three_items() {
    let basic_example = BasicExampleProblem {
        required_items: vec!["A", "B", "C"],
        optional_items: vec![],
        options: vec!["AB", "BC", "AC"],
    };

    let solution = solve_basic_example_with_exact_cover(&basic_example);

    assert!(solution.is_none());
}

#[test]
fn test_basic_example() {
    let basic_example = BasicExampleProblem {
        required_items: vec!["1", "2", "3", "4", "5", "6", "7"],
        optional_items: vec![],
        options: vec!["147", "14", "457", "356", "2367", "27"],
    };

    let solution = solve_basic_example_with_exact_cover(&basic_example);

    assert!(solution.is_some());
    let selected_options = solution.unwrap().selected_options;
    assert_eq_ignore_order(
        &selected_options,
        &vec!["14".to_string(), "356".to_string(), "27".to_string()],
    );
}

#[test]
fn test_basic_example_no_solution() {
    let basic_example = BasicExampleProblem {
        required_items: vec!["1", "2", "3", "4", "5", "6", "7"],
        optional_items: vec![],
        options: vec!["147", "14", "457", "356", "2367", "26"],
    };

    let solution = solve_basic_example_with_exact_cover(&basic_example);

    assert!(solution.is_none());
}

#[test]
fn test_knuth_basic_example() {
    let basic_example = BasicExampleProblem {
        required_items: vec!["A", "B", "C", "D", "E", "F", "G"],
        optional_items: vec![],
        options: vec!["CEF", "ADG", "BCF", "AD", "BG", "DEG"],
    };

    let solution = solve_basic_example_with_exact_cover(&basic_example);

    assert!(solution.is_some());
    let selected_options = solution.unwrap().selected_options;
    assert_eq_ignore_order(
        &selected_options,
        &vec!["CEF".to_string(), "AD".to_string(), "BG".to_string()],
    );
}

#[test]
fn test_knuth_basic_example_with_optional_h() {
    let basic_example = BasicExampleProblem {
        required_items: vec!["A", "B", "C", "D", "E", "F", "G"],
        optional_items: vec!["H"],
        options: vec!["CEF", "ADG", "BCF", "AD", "BG", "DEG"],
    };

    let solution = solve_basic_example_with_exact_cover(&basic_example);

    assert!(solution.is_some());
    let selected_options = solution.unwrap().selected_options;
    assert_eq_ignore_order(
        &selected_options,
        &vec!["CEF".to_string(), "AD".to_string(), "BG".to_string()],
    );
}

#[test]
fn basic_example_optional_item_used_at_most_once() {
    // "AH" and "BH" both cover the optional H, so only one of them may be chosen.
    let basic_example = BasicExampleProblem {
        required_items: vec!["A", "B"],
        optional_items: vec!["H"],
        options: vec!["AH", "BH"],
    };

    let solution = solve_basic_example_with_exact_cover(&basic_example);

    assert!(solution.is_none());
}

#[test]
fn basic_example_repeated_option_is_malformed() {
    let basic_example = BasicExampleProblem {
        required_items: vec!["A"],
        optional_items: vec![],
        options: vec!["A", "A"],
    };

    let solution = solve_basic_example_with_exact_cover(&basic_example);

    assert!(solution.is_none());
}
