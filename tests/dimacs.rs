use rewsat::{DimacsParseError, DIMACS};

fn lines(text: &str) -> Vec<String> {
    text.lines().map(|l| l.trim().to_string()).collect()
}

fn check_model(solution: &[i64], clauses: &[Vec<i64>], n: i64) {
    assert_eq!(solution.len() as i64, n + 1);
    assert_eq!(solution[n as usize], 0);
    for (i, &l) in solution[..n as usize].iter().enumerate() {
        assert_eq!(l.abs(), i as i64 + 1);
    }
    for c in clauses {
        assert!(c.iter().any(|l| solution[(l.abs() - 1) as usize] == *l));
    }
}

#[test]
fn reads_and_solves_scenario() {
    let text = "c example\nc second comment\np cnf 4 5\n1 -2 0\n1 2 -3 0\n-2 -4 0\n-2 4 0\n2 3 0\n";
    let mut d = DIMACS::from(&lines(text)).expect("well-formed");
    let solution = d.solve().expect("satisfiable");
    let clauses = vec![vec![1, -2], vec![1, 2, -3], vec![-2, -4], vec![-2, 4], vec![2, 3]];
    check_model(&solution, &clauses, 4);
}

#[test]
fn solves_unsat_text() {
    let mut d = DIMACS::from(&lines("p cnf 2 4\n1 2 0\n-1 2 0\n1 -2 0\n-1 -2 0")).unwrap();
    assert_eq!(d.solve(), None);
    let mut d = DIMACS::from(&lines("p cnf 1 2\n1 0\n-1 0")).unwrap();
    assert_eq!(d.solve(), None);
}

#[test]
fn extra_spaces_and_signs() {
    let mut d = DIMACS::from(&lines("p  cnf\t3 2\n +1   -3 0\n\t-1 0")).unwrap();
    let solution = d.solve().unwrap();
    assert_eq!(solution, vec![-1, 2, -3, 0]);
}

#[test]
fn variables_beyond_header_still_count() {
    let mut d = DIMACS::from(&lines("p cnf 1 2\n5 0\n-5 1 0")).unwrap();
    assert_eq!(d.solve(), Some(vec![1, 0]));
}

#[test]
fn no_clauses_is_satisfiable() {
    let mut d = DIMACS::from(&lines("p cnf 3 0")).unwrap();
    assert_eq!(d.solve(), Some(vec![1, 2, 3, 0]));
    assert_eq!(DIMACS::new().solve(), Some(vec![0]));
}

#[test]
fn rejects_malformed_text() {
    let bad = [
        "",
        "1 2 0",
        "p cnf 2",
        "p cnf x 1\n1 0",
        "p dnf 2 1\n1 0",
        "p cnf 2 2\n1 2 0",
        "p cnf 2 1\n1 2 0\n-1 0",
        "p cnf 2 1\n1 2",
        "p cnf 2 1\n1 0 2 0",
        "p cnf 2 1\n0",
        "p cnf 2 1\n1 -0 0",
        "p cnf 2 1\n1 a 0",
        "p cnf 2 1\n\n1 0",
        "c ok\n\np cnf 1 1\n1 0",
        "p cnf 1 1\n-9223372036854775808 0",
        "p cnf 1 1\n99999999999999999999 0",
    ];
    for text in bad {
        assert_eq!(DIMACS::from(&lines(text)).err(), Some(DimacsParseError), "{:?}", text);
    }
}

fn words_of(line: &str) -> Vec<Vec<char>> {
    line.split_whitespace().map(|w| w.chars().collect()).collect()
}

#[test]
fn reads_split_lines() {
    let text = ["c words", "p cnf 2 2", "1 -2 0", "2 0"];
    let split: Vec<Vec<Vec<char>>> = text.iter().map(|l| words_of(l)).collect();
    let mut d = DIMACS::from_words(&split).unwrap();
    assert_eq!(d.solve(), Some(vec![1, 2, 0]));
    let short: Vec<Vec<Vec<char>>> = text[..3].iter().map(|l| words_of(l)).collect();
    assert_eq!(DIMACS::from_words(&short).err(), Some(DimacsParseError));
}
