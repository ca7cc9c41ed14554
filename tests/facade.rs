use rewsat::{SATSolver, Variable};

#[test]
fn names_get_dense_ids() {
    let mut solver: SATSolver<&str> = SATSolver::new();
    let a = solver.variable("a");
    let b = solver.variable("b");
    let a2 = solver.variable("a");
    assert_eq!(solver.get_variable_name(&a), Some(&"a"));
    assert_eq!(solver.get_variable_name(&b), Some(&"b"));
    assert_eq!(solver.get_variable_name(&a2), Some(&"a"));
    assert_eq!(solver.get_variable_name(&!b), Some(&"b"));
}

#[test]
fn model_by_name() {
    let mut solver: SATSolver<&str> = SATSolver::new();
    let a = solver.variable("a");
    let b = solver.variable("b");
    let c = solver.variable("c");
    solver.add_clause(&[a, !b]);
    solver.add_clause(&[!a]);
    solver.add_clause(&[b, c]);
    assert_eq!(solver.get_model_value(&a), None);
    assert!(solver.solve());
    assert_eq!(solver.get_model_value_from_name(&"a"), Some(false));
    assert_eq!(solver.get_model_value_from_name(&"b"), Some(false));
    assert_eq!(solver.get_model_value(&c), Some(true));
    assert_eq!(solver.get_model_value_from_name(&"d"), None);
}

#[test]
fn empty_clause_is_unsatisfiable() {
    let mut solver: SATSolver<&str> = SATSolver::new();
    let a = solver.variable("a");
    solver.add_clause(&[]);
    assert!(!solver.solve());
    assert_eq!(solver.get_model_value(&a), None);
    let mut alone: SATSolver<&str> = SATSolver::new();
    alone.add_clause(&[]);
    assert!(!alone.solve());
}

#[test]
fn unsat_keeps_no_model() {
    let mut solver: SATSolver<u32> = SATSolver::new();
    let x = solver.variable(7);
    solver.add_clauses(&[vec![x], vec![!x]]);
    assert!(!solver.solve());
    assert_eq!(solver.get_model_value(&x), None);
}

fn cell(r: usize, c: usize, v: usize) -> (usize, usize, usize) {
    (r, c, v)
}

fn exactly_one(solver: &mut SATSolver<(usize, usize, usize)>, group: &[(usize, usize, usize)]) {
    let vars: Vec<Variable> = group.iter().map(|&n| solver.variable(n)).collect();
    solver.add_clause(&vars);
    for i in 0..vars.len() {
        for j in i + 1..vars.len() {
            solver.add_clause(&[!vars[i], !vars[j]]);
        }
    }
}

#[test]
fn sudoku_four_by_four() {
    let mut solver: SATSolver<(usize, usize, usize)> = SATSolver::new();
    for r in 0..4 {
        for c in 0..4 {
            let group: Vec<_> = (1..=4).map(|v| cell(r, c, v)).collect();
            exactly_one(&mut solver, &group);
        }
    }
    for v in 1..=4 {
        for r in 0..4 {
            let group: Vec<_> = (0..4).map(|c| cell(r, c, v)).collect();
            exactly_one(&mut solver, &group);
        }
        for c in 0..4 {
            let group: Vec<_> = (0..4).map(|r| cell(r, c, v)).collect();
            exactly_one(&mut solver, &group);
        }
        for b in 0..4 {
            let (r0, c0) = ((b / 2) * 2, (b % 2) * 2);
            let group: Vec<_> = (0..4).map(|k| cell(r0 + k / 2, c0 + k % 2, v)).collect();
            exactly_one(&mut solver, &group);
        }
    }
    let given = [cell(0, 0, 1), cell(1, 2, 1), cell(3, 3, 3)];
    for &g in &given {
        let x = solver.variable(g);
        solver.add_clause(&[x]);
    }
    assert!(solver.solve());
    let mut grid = [[0usize; 4]; 4];
    for r in 0..4 {
        for c in 0..4 {
            let values: Vec<usize> = (1..=4)
                .filter(|&v| solver.get_model_value_from_name(&cell(r, c, v)) == Some(true))
                .collect();
            assert_eq!(values.len(), 1);
            grid[r][c] = values[0];
        }
    }
    for (r, c, v) in given {
        assert_eq!(grid[r][c], v);
    }
    for i in 0..4 {
        let mut row: Vec<usize> = grid[i].to_vec();
        let mut col: Vec<usize> = (0..4).map(|r| grid[r][i]).collect();
        let (r0, c0) = ((i / 2) * 2, (i % 2) * 2);
        let mut bx: Vec<usize> = (0..4).map(|k| grid[r0 + k / 2][c0 + k % 2]).collect();
        row.sort();
        col.sort();
        bx.sort();
        assert_eq!(row, vec![1, 2, 3, 4]);
        assert_eq!(col, vec![1, 2, 3, 4]);
        assert_eq!(bx, vec![1, 2, 3, 4]);
    }
}
