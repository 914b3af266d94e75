use solver::{solve, Formula, State};

fn run(clauses: Vec<Vec<isize>>) -> (Option<Vec<isize>>, State) {
    let mut state = State::default();
    let r = solve(&mut state, Formula::from_clauses(clauses));
    (r, state)
}

/// The assignment read off a returned trail: a positive literal makes its
/// variable true, anything else leaves it false.
fn lit_true(assignment: &[isize], lit: isize) -> bool {
    if lit > 0 {
        assignment.contains(&lit)
    } else {
        !assignment.contains(&-lit)
    }
}

fn satisfies(assignment: &[isize], clauses: &[Vec<isize>]) -> bool {
    clauses.iter().all(|c| c.iter().any(|&l| lit_true(assignment, l)))
}

fn brute_force_satisfiable(clauses: &[Vec<isize>]) -> bool {
    let mut vars: Vec<isize> = clauses.iter().flat_map(|c| c.iter().map(|l| l.abs())).collect();
    vars.sort();
    vars.dedup();
    let n = vars.len();
    assert!(n <= 16);
    for mask in 0..(1u32 << n) {
        let assignment: Vec<isize> =
            (0..n).map(|i| if mask & (1 << i) != 0 { vars[i] } else { -vars[i] }).collect();
        if satisfies(&assignment, clauses) {
            return true;
        }
    }
    false
}

#[test]
fn empty_input_is_satisfiable_with_empty_assignment() {
    let (r, state) = run(vec![]);
    assert_eq!(r, Some(vec![]));
    assert_eq!(state.node_counter, 1);
    assert_eq!(state.unit_propagation_counter, 0);
}

#[test]
fn empty_clause_is_unsatisfiable_without_branching() {
    let (r, state) = run(vec![vec![1, 2], vec![], vec![-2, 3]]);
    assert_eq!(r, None);
    // detected on the first node, before any branching
    assert_eq!(state.node_counter, 1);
}

#[test]
fn single_unit_clause() {
    let (r, state) = run(vec![vec![1]]);
    assert_eq!(r, Some(vec![1]));
    assert_eq!(state.node_counter, 1);
    assert_eq!(state.unit_propagation_counter, 1);
}

#[test]
fn complementary_units_are_unsatisfiable() {
    let (r, state) = run(vec![vec![1], vec![-1]]);
    assert_eq!(r, None);
    assert_eq!(state.unit_propagation_counter, 2);
    assert_eq!(state.node_counter, 1);
}

#[test]
fn mom_picks_the_most_frequent_literal() {
    let f = Formula::from_clauses(vec![vec![1, 2], vec![-1, 2]]);
    assert_eq!(f.mom(), 2);
}

#[test]
fn two_clauses_agree_on_second_variable() {
    // literal 2 has the strictly greatest minimal-length tally, so the
    // heuristic must pick it and the true branch settles at once
    let (r, state) = run(vec![vec![1, 2], vec![-1, 2]]);
    assert_eq!(r, Some(vec![2]));
    assert!(satisfies(&[2], &[vec![1, 2], vec![-1, 2]]));
    assert_eq!(state.node_counter, 2);
    assert_eq!(state.unit_propagation_counter, 0);
}

#[test]
fn witness_satisfies_every_clause() {
    let clauses = vec![vec![1, -2, 3], vec![-1, 2], vec![-3, -2], vec![1, 3]];
    let (r, _) = run(clauses.clone());
    let a = r.expect("satisfiable");
    assert!(satisfies(&a, &clauses));
}

#[test]
fn unsatisfiable_four_clause_core() {
    let clauses = vec![vec![1, 2], vec![-1, 2], vec![1, -2], vec![-1, -2]];
    let (r, _) = run(clauses);
    assert_eq!(r, None);
}

#[test]
fn verdict_matches_brute_force_enumeration() {
    let formulas: Vec<Vec<Vec<isize>>> = vec![
        vec![],
        vec![vec![1]],
        vec![vec![1], vec![-1]],
        vec![vec![1, 2], vec![-1, 2]],
        vec![vec![1, 2], vec![-1, 2], vec![1, -2], vec![-1, -2]],
        vec![vec![1, 2, 3], vec![-1, -2], vec![-2, -3], vec![-1, -3], vec![2, 3]],
        vec![vec![1, -3], vec![2, 3, -1], vec![-2, 4], vec![-4, 1], vec![3, -4]],
        vec![vec![5], vec![-5, 6], vec![-6, 7], vec![-7, -5]],
    ];
    for clauses in formulas {
        let (r, _) = run(clauses.clone());
        match r {
            Some(a) => {
                assert!(satisfies(&a, &clauses));
                assert!(brute_force_satisfiable(&clauses));
            }
            None => assert!(!brute_force_satisfiable(&clauses)),
        }
    }
}

#[test]
fn branch_copy_leaves_the_original_untouched() {
    let f = Formula::from_clauses(vec![vec![1, 2], vec![-1, 3]]);
    let g = f.with_true(1);
    assert_eq!(f.assignments(), &Vec::<isize>::new());
    assert_eq!(f.clauses(), &vec![vec![1, 2], vec![-1, 3]]);
    assert_eq!(g.assignments(), &vec![1]);
    assert_eq!(g.clauses(), &vec![vec![3]]);
}

#[test]
fn assign_removes_both_polarities() {
    let mut f = Formula::from_clauses(vec![vec![1, 2], vec![-1, 3], vec![2, -1, 4]]);
    f.assign_true(1);
    assert_eq!(f.assignments(), &vec![1]);
    assert_eq!(f.clauses(), &vec![vec![3], vec![2, 4]]);
    for clause in f.clauses() {
        assert!(!clause.contains(&1));
        assert!(!clause.contains(&-1));
    }
}

#[test]
fn propagate_forces_each_distinct_unit_once() {
    let mut f = Formula::from_clauses(vec![vec![1], vec![1], vec![2, -1], vec![-3]]);
    let mut state = State::default();
    f.unit_propagate(&mut state);
    assert_eq!(state.unit_propagation_counter, 2);
    let trail = f.assignments().clone();
    assert_eq!(trail.len(), 2);
    assert!(trail.contains(&1));
    assert!(trail.contains(&-3));
    assert_eq!(f.clauses(), &vec![vec![2]]);
}

#[test]
fn propagate_is_one_pass_not_a_fixpoint() {
    // the second variable only becomes unit through the first assignment,
    // so one pass leaves it for the next node
    let mut f = Formula::from_clauses(vec![vec![1], vec![-1, 2]]);
    let mut state = State::default();
    f.unit_propagate(&mut state);
    assert_eq!(state.unit_propagation_counter, 1);
    assert_eq!(f.clauses(), &vec![vec![2]]);
}

#[test]
fn propagate_without_units_changes_nothing() {
    let mut f = Formula::from_clauses(vec![vec![1, 2], vec![-1, 3]]);
    let mut state = State::default();
    f.unit_propagate(&mut state);
    assert_eq!(f.assignments(), &Vec::<isize>::new());
    assert_eq!(f.clauses(), &vec![vec![1, 2], vec![-1, 3]]);
    assert_eq!(state.unit_propagation_counter, 0);
    assert_eq!(state.node_counter, 0);
}

#[test]
fn default_formula_is_empty() {
    let f = Formula::default();
    assert_eq!(f.assignments(), &Vec::<isize>::new());
    assert_eq!(f.clauses(), &Vec::<Vec<isize>>::new());
    let g = f.clone();
    assert_eq!(g.clauses(), f.clauses());
}

#[test]
fn counters_are_monotone_and_positive() {
    let mut state = State::default();
    let r1 = solve(&mut state, Formula::from_clauses(vec![vec![1], vec![-1, 2]]));
    assert!(r1.is_some());
    let nodes_after_first = state.node_counter;
    let units_after_first = state.unit_propagation_counter;
    assert!(nodes_after_first >= 1);
    assert!(units_after_first >= 1);
    let r2 = solve(&mut state, Formula::from_clauses(vec![vec![4], vec![-4]]));
    assert_eq!(r2, None);
    assert!(state.node_counter >= nodes_after_first);
    assert!(state.unit_propagation_counter >= units_after_first);
}

#[test]
fn fresh_state_starts_at_zero() {
    let state = State::default();
    assert_eq!(state.node_counter, 0);
    assert_eq!(state.unit_propagation_counter, 0);
}

#[test]
fn literals_ok_spots_the_bad_values() {
    assert!(Formula::from_clauses(vec![vec![1, -2]]).literals_ok());
    assert!(!Formula::from_clauses(vec![vec![1, 0]]).literals_ok());
    assert!(!Formula::from_clauses(vec![vec![isize::MIN]]).literals_ok());
}
