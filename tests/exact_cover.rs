use exact_cover::exact_cover::{ExactCoverProblem, MalformedInstance};

fn s(x: &str) -> String {
    x.to_string()
}

/// Declarations where each option is named by the items it covers.
fn by_letters(mandatory: &[&str], optional: &[&str], options: &[&str]) -> ExactCoverProblem {
    let mut covered_by: Vec<(String, Vec<String>)> = Vec::new();
    for item in mandatory.iter().chain(optional.iter()) {
        let opts: Vec<String> = options.iter().filter(|o| o.contains(item)).map(|o| s(o)).collect();
        covered_by.push((s(item), opts));
    }
    let required: Vec<String> = mandatory.iter().map(|x| s(x)).collect();
    ExactCoverProblem::new(required, vec![], covered_by).unwrap()
}

fn sorted(v: &[String]) -> Vec<String> {
    let mut v = v.to_vec();
    v.sort();
    v
}

const KNUTH_ITEMS: [&str; 7] = ["A", "B", "C", "D", "E", "F", "G"];
const KNUTH_OPTIONS: [&str; 6] = ["CEF", "ADG", "BCF", "AD", "BG", "DEG"];

#[test]
fn empty_instance_has_one_empty_solution() {
    let p = ExactCoverProblem::new(vec![], vec![], vec![]).unwrap();
    let solution = p.solve().unwrap();
    assert!(solution.selected_options.is_empty());
    assert_eq!(p.count_all_solutions(), 1);
}

#[test]
fn items_without_options_have_no_solution() {
    let p = by_letters(&KNUTH_ITEMS, &[], &[]);
    assert!(p.solve().is_none());
    assert_eq!(p.count_all_solutions(), 0);
}

#[test]
fn wikipedia_detailed_example() {
    let p = by_letters(
        &["1", "2", "3", "4", "5", "6", "7"],
        &[],
        &["147", "14", "457", "356", "2367", "27"],
    );
    let solution = p.solve().unwrap();
    assert_eq!(sorted(&solution.selected_options), vec![s("14"), s("27"), s("356")]);
    assert_eq!(p.count_all_solutions(), 1);
}

#[test]
fn knuth_classic_example() {
    let p = by_letters(&KNUTH_ITEMS, &[], &KNUTH_OPTIONS);
    let solution = p.solve().unwrap();
    assert_eq!(sorted(&solution.selected_options), vec![s("AD"), s("BG"), s("CEF")]);
    assert_eq!(p.count_all_solutions(), 1);
}

#[test]
fn unused_optional_item_changes_nothing() {
    let p = by_letters(&KNUTH_ITEMS, &["H"], &KNUTH_OPTIONS);
    let solution = p.solve().unwrap();
    assert_eq!(sorted(&solution.selected_options), vec![s("AD"), s("BG"), s("CEF")]);
    assert_eq!(p.count_all_solutions(), 1);
}

#[test]
fn count_is_zero_exactly_when_solve_finds_nothing() {
    let unsat = by_letters(&["A", "B", "C"], &[], &["AB", "BC", "AC"]);
    assert!(unsat.solve().is_none());
    assert_eq!(unsat.count_all_solutions(), 0);
    let sat = by_letters(&["A", "B"], &[], &["A", "B", "AB"]);
    assert!(sat.solve().is_some());
    assert_eq!(sat.count_all_solutions(), 2);
}

#[test]
fn count_is_the_same_on_every_call() {
    let p = by_letters(&["A", "B", "C"], &[], &["A", "B", "C", "AB", "BC", "AC", "ABC"]);
    let first = p.count_all_solutions();
    assert_eq!(first, 5);
    assert_eq!(p.count_all_solutions(), first);
    assert_eq!(p.count_all_solutions(), first);
}

#[test]
fn solution_is_an_exact_cover() {
    let p = by_letters(&["A", "B", "C", "D"], &["E"], &["AE", "BE", "AB", "CD", "C", "D"]);
    let solution = p.solve().unwrap();
    for item in ["A", "B", "C", "D"] {
        let n = solution.selected_options.iter().filter(|o| o.contains(item)).count();
        assert_eq!(n, 1);
    }
    let n = solution.selected_options.iter().filter(|o| o.contains("E")).count();
    assert!(n <= 1);
    for o in &solution.selected_options {
        assert!(["AE", "BE", "AB", "CD", "C", "D"].contains(&o.as_str()));
    }
    assert_eq!(p.count_all_solutions(), 2);
}

#[test]
fn required_option_is_in_every_solution() {
    let covered_by = vec![
        (s("A"), vec![s("x"), s("y")]),
        (s("B"), vec![s("y"), s("z")]),
    ];
    let p = ExactCoverProblem::new(vec![s("A"), s("B")], vec![s("y")], covered_by).unwrap();
    assert_eq!(p.solve().unwrap().selected_options, vec![s("y")]);
    assert_eq!(p.count_all_solutions(), 1);
}

#[test]
fn conflicting_required_options_have_no_solution() {
    let covered_by = vec![(s("A"), vec![s("x"), s("y")]), (s("B"), vec![s("z")])];
    let p = ExactCoverProblem::new(vec![s("A"), s("B")], vec![s("x"), s("y")], covered_by).unwrap();
    assert!(p.solve().is_none());
    assert_eq!(p.count_all_solutions(), 0);
}

#[test]
fn empty_name_is_malformed() {
    let r = ExactCoverProblem::new(vec![s("A")], vec![], vec![(s("A"), vec![s("")])]);
    assert_eq!(r.err(), Some(MalformedInstance::EmptyId));
}

#[test]
fn duplicate_item_is_malformed() {
    let r = ExactCoverProblem::new(vec![], vec![], vec![(s("A"), vec![]), (s("A"), vec![])]);
    assert_eq!(r.err(), Some(MalformedInstance::DuplicateItem));
}

#[test]
fn undeclared_item_is_malformed() {
    let r = ExactCoverProblem::new(vec![s("B")], vec![], vec![(s("A"), vec![])]);
    assert_eq!(r.err(), Some(MalformedInstance::UndeclaredItem));
}

#[test]
fn duplicate_option_is_malformed() {
    let r = ExactCoverProblem::new(vec![s("A")], vec![], vec![(s("A"), vec![s("x"), s("x")])]);
    assert_eq!(r.err(), Some(MalformedInstance::DuplicateOption));
}

#[test]
fn undeclared_option_is_malformed() {
    let r = ExactCoverProblem::new(vec![s("A")], vec![s("q")], vec![(s("A"), vec![s("x")])]);
    assert_eq!(r.err(), Some(MalformedInstance::UndeclaredOption));
}

#[test]
fn options_are_interned_in_order_of_first_mention() {
    let covered_by = vec![
        (s("A"), vec![s("y"), s("x")]),
        (s("B"), vec![s("x"), s("z")]),
    ];
    let p = ExactCoverProblem::new(vec![s("A")], vec![], covered_by).unwrap();
    assert_eq!(p.options, vec![s("y"), s("x"), s("z")]);
    assert_eq!(p.inc.covers, vec![vec![0], vec![0, 1], vec![1]]);
    assert_eq!(p.inc.covered_by, vec![vec![0, 1], vec![1, 2]]);
    assert_eq!(p.inc.mandatory, vec![true, false]);
}
