use std::collections::HashSet;

use rewsat::sat_solver_core::{simplify, solve};

fn satisfies_all(model: &HashSet<i32>, clauses: &[Vec<i32>]) -> bool {
    clauses.iter().all(|c| c.iter().any(|l| model.contains(l)))
}

fn is_total(model: &HashSet<i32>, n: i32) -> bool {
    (1..=n).all(|v| model.contains(&v) != model.contains(&-v)) && model.len() == n as usize
}

fn brute_force_sat(n: i32, clauses: &[Vec<i32>]) -> bool {
    (0u32..(1u32 << n)).any(|bits| {
        clauses.iter().all(|c| {
            c.iter().any(|&l| {
                let v = l.abs() - 1;
                let value = bits & (1 << v) != 0;
                if l > 0 {
                    value
                } else {
                    !value
                }
            })
        })
    })
}

#[test]
fn test_simplify1() {
    let mut model = HashSet::new();
    let mut clauses = vec![vec![1], vec![1, 2]];
    let result = simplify(&mut clauses, &mut model);
    assert!(result);
    assert!(clauses.is_empty());
    assert!(model.contains(&1));
    assert!(!model.contains(&2) && !model.contains(&-2));
}

#[test]
fn test_simplify2() {
    let mut clauses = vec![vec![1], vec![-1]];
    let res = simplify(&mut clauses, &mut HashSet::new());
    assert!(!res);
}

#[test]
fn simplify_strikes_false_literals() {
    let mut model = HashSet::new();
    let mut clauses = vec![vec![-1], vec![1, 2, 3], vec![-1, 3]];
    assert!(simplify(&mut clauses, &mut model));
    assert!(model.contains(&-1));
    assert_eq!(clauses, vec![vec![2, 3]]);
}

#[test]
fn simplify_chains_units() {
    let mut model = HashSet::new();
    let mut clauses = vec![vec![1], vec![-1, 2], vec![-2, 3]];
    assert!(simplify(&mut clauses, &mut model));
    assert!(clauses.is_empty());
    assert!(model.contains(&1) && model.contains(&2) && model.contains(&3));
}

#[test]
fn simplify_reports_emptied_clause() {
    let mut model = HashSet::new();
    let mut clauses = vec![vec![1], vec![2], vec![-1, -2]];
    assert!(!simplify(&mut clauses, &mut model));
}

#[test]
fn solve_scenario_satisfiable() {
    let clauses = vec![vec![1, -2], vec![1, 2, -3], vec![-2, -4], vec![-2, 4], vec![2, 3]];
    let model = solve(4, &clauses).expect("satisfiable");
    assert!(is_total(&model, 4));
    assert!(satisfies_all(&model, &clauses));
}

#[test]
fn solve_unit_contradiction() {
    let clauses = vec![vec![1], vec![-1]];
    assert!(solve(1, &clauses).is_none());
}

#[test]
fn solve_all_four_sign_patterns_unsat() {
    let clauses = vec![vec![1, 2], vec![-1, 2], vec![1, -2], vec![-1, -2]];
    assert!(!brute_force_sat(2, &clauses));
    assert!(solve(2, &clauses).is_none());
}

#[test]
fn solve_no_clauses() {
    let model = solve(3, &[]).expect("trivially satisfiable");
    assert!(is_total(&model, 3));
    assert_eq!(model, HashSet::from([1, 2, 3]));
    assert!(solve(0, &[]).expect("trivially satisfiable").is_empty());
}

#[test]
fn free_variables_are_true() {
    let model = solve(4, &[vec![-2], vec![2, -3]]).expect("satisfiable");
    assert_eq!(model, HashSet::from([1, -2, -3, 4]));
}

#[test]
fn solve_single_empty_clause() {
    assert!(solve(0, &[vec![]]).is_none());
    assert!(solve(3, &[vec![]]).is_none());
}

#[test]
fn solve_agrees_with_brute_force() {
    let formulas: Vec<Vec<Vec<i32>>> = vec![
        vec![vec![1, 2, 3], vec![-1, -2], vec![-2, -3], vec![-1, -3], vec![1, -2]],
        vec![vec![1, 2], vec![-1, 3], vec![-3, -2], vec![2, 3], vec![-2, 1]],
        vec![vec![1], vec![-1, 2], vec![-2, 3], vec![-3, -1]],
        vec![vec![-1, -2, -3], vec![1, 2], vec![2, 3], vec![1, 3]],
    ];
    for clauses in formulas {
        let expected = brute_force_sat(3, &clauses);
        match solve(3, &clauses) {
            Some(model) => {
                assert!(expected);
                assert!(is_total(&model, 3));
                assert!(satisfies_all(&model, &clauses));
            }
            None => assert!(!expected),
        }
    }
}

fn sorted_clauses(mut clauses: Vec<Vec<i32>>) -> Vec<Vec<i32>> {
    for c in clauses.iter_mut() {
        c.sort();
    }
    clauses.sort();
    clauses
}

#[test]
fn propagation_order_does_not_matter() {
    let orders = vec![
        vec![vec![1], vec![-1, 2], vec![-2, 3, 4], vec![-4, 5, -1], vec![6, -3]],
        vec![vec![-2, 3, 4], vec![6, -3], vec![-4, 5, -1], vec![-1, 2], vec![1]],
        vec![vec![-4, 5, -1], vec![1], vec![6, -3], vec![-2, 3, 4], vec![-1, 2]],
    ];
    let mut results = Vec::new();
    for mut clauses in orders {
        let mut model = HashSet::new();
        assert!(simplify(&mut clauses, &mut model));
        let mut lits: Vec<i32> = model.into_iter().collect();
        lits.sort();
        results.push((lits, sorted_clauses(clauses)));
    }
    assert_eq!(results[0].0, vec![1, 2]);
    assert_eq!(results[0].1, vec![vec![-4, 5], vec![-3, 6], vec![3, 4]]);
    assert_eq!(results[0], results[1]);
    assert_eq!(results[0], results[2]);
}
