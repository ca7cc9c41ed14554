use rewsat::{Clause, Literal, Model, SATSolverCore, TruthAssign, DPLL};

fn clause(lits: &[(usize, bool)]) -> Clause {
    let v: Vec<Literal> = lits.iter().map(|&(x, s)| Literal::new(x, s)).collect();
    Clause::from_literals(&v)
}

fn holds(model: &Model, lits: &[(usize, bool)]) -> bool {
    lits.iter().any(|&(x, s)| model.sign(x) == Some(s))
}

fn total(model: &Model, n: usize) -> bool {
    model.len() == n && (0..n).all(|i| model.has_assigned(i))
}

#[test]
fn literal_accessors_and_negation() {
    let l = Literal::new(3, true);
    assert_eq!(l.variable(), 3);
    assert!(l.sign());
    let n = !l;
    assert_eq!(n.variable(), 3);
    assert!(!n.sign());
    assert_eq!(!n, l);
}

#[test]
fn clause_assign_satisfies() {
    let mut c = clause(&[(0, true), (1, false)]);
    assert!(!c.has_deleted());
    c.assign(1, false);
    assert!(c.has_deleted());
    assert!(c.is_valid());
    assert!(c.is_empty());
}

#[test]
fn clause_assign_strikes_opposite() {
    let mut c = clause(&[(0, true), (1, false), (2, true)]);
    c.assign(1, true);
    assert_eq!(c.len(), 2);
    assert_eq!(c.get(0).map(|l| l.variable()), Some(0));
    assert_eq!(c.get(1).map(|l| l.variable()), Some(2));
    assert!(c.get(2).is_none());
    assert!(!c.is_unit());
    c.assign(0, false);
    assert!(c.is_unit());
}

#[test]
fn clause_assign_falsifies() {
    let mut c = clause(&[(0, true)]);
    c.assign(0, false);
    assert!(!c.is_valid());
    assert!(!c.has_deleted());
    assert!(c.is_empty());
}

#[test]
fn satisfied_clause_stays_satisfied() {
    let mut c = clause(&[(0, true), (1, true)]);
    c.assign(0, true);
    assert!(c.has_deleted());
    for &(x, s) in &[(0, false), (1, false), (1, true), (5, true)] {
        c.assign(x, s);
        assert!(c.has_deleted());
        assert!(c.is_valid());
    }
    assert!(Clause::new().has_deleted());
}

#[test]
fn model_values() {
    let mut m = Model::new(2);
    assert!(!m.has_assigned(0));
    assert_eq!(m.sign(1), None);
    assert!(m.assign(1, false));
    assert_eq!(m.sign(1), Some(false));
    assert!(m.has_assigned(1));
    assert!(!m.assign(2, true));
    assert_eq!(m.sign(2), None);
    assert!(!m.has_assigned(2));
    assert_eq!(TruthAssign::Unassigned, TruthAssign::Unassigned);
}

#[test]
fn dpll_scenario_satisfiable() {
    let raw: Vec<Vec<(usize, bool)>> = vec![
        vec![(0, true), (1, false)],
        vec![(0, true), (1, true), (2, false)],
        vec![(1, false), (3, false)],
        vec![(1, false), (3, true)],
        vec![(1, true), (2, true)],
    ];
    let clauses: Vec<Clause> = raw.iter().map(|c| clause(c)).collect();
    let mut solver = DPLL::new();
    let model = solver.solve(4, &clauses).expect("satisfiable");
    assert!(total(&model, 4));
    for c in &raw {
        assert!(holds(&model, c));
    }
    let _ = solver.time();
}

#[test]
fn dpll_unit_contradiction() {
    let clauses = vec![clause(&[(0, true)]), clause(&[(0, false)])];
    let mut solver: SATSolverCore = DPLL::new();
    assert!(solver.solve(1, &clauses).is_none());
}

#[test]
fn dpll_exhaustive_unsat() {
    let clauses = vec![
        clause(&[(0, true), (1, true)]),
        clause(&[(0, false), (1, true)]),
        clause(&[(0, true), (1, false)]),
        clause(&[(0, false), (1, false)]),
    ];
    assert!(DPLL::new().solve(2, &clauses).is_none());
}

#[test]
fn dpll_boundaries() {
    let model = DPLL::new().solve(3, &[]).expect("no clauses");
    assert!(total(&model, 3));
    assert!((0..3).all(|i| model.sign(i) == Some(true)));
    assert!(DPLL::new().solve(0, &[]).is_some());
    assert!(DPLL::new().solve(0, &[clause(&[])]).is_none());
    assert!(DPLL::new().solve(4, &[clause(&[])]).is_none());
}
