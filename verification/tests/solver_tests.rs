use sat_solver::solver::Literal;
use sat_solver::solver::ParseError;
use sat_solver::solver::SATSolver;

#[test]
fn parse_cnf() {
    let cnf = vec![
        vec!["apple", "!cat"],
        vec!["!apple", "sugar_cane", "cat"],
        vec!["!sugar_cane", "apple", "!cat"],
    ];
    let sat_solver = SATSolver::parse_cnf(cnf).unwrap();
    assert_eq!(sat_solver.total_literals, 3);
    assert_eq!(sat_solver.clauses.len(), 3);
    assert_eq!(sat_solver.clauses[0].disjunction[0], Literal::Must);
    assert_eq!(sat_solver.clauses[0].disjunction[1], Literal::MustNot);
    assert_eq!(sat_solver.clauses[0].disjunction[2], Literal::Absent);
}

#[test]
fn unit_propagation() {
    let cnf = vec![
        vec!["apple"],
        vec!["!apple", "sugar_cane"],
        vec!["!sugar_cane", "apple", "!cat"],
    ];
    let mut sat_solver = SATSolver::parse_cnf(cnf).unwrap();
    let (satisfiable, solution) = sat_solver.solve();
    assert_eq!(satisfiable, true);
    assert_eq!(
        solution,
        Some(vec!["apple".to_string(), "sugar_cane".to_string()])
    );
}

#[test]
fn pure_literal_elimination() {
    let cnf = vec![
        vec!["apple", "!cat", "kangaroo"],
        vec!["sugar_cane", "!cat"],
        vec!["!sugar_cane", "apple", "eagle"],
    ];
    let mut sat_solver = SATSolver::parse_cnf(cnf).unwrap();
    let (satisfiable, solution) = sat_solver.solve();
    assert_eq!(satisfiable, true);
    assert_eq!(
        solution,
        Some(vec!["apple".to_string(), "!cat".to_string()])
    );
}

#[test]
fn simple() {
    let cnf = vec![
        vec!["apple", "!cat"],
        vec!["!apple", "sugar_cane", "cat"],
        vec!["!sugar_cane", "apple", "!cat"],
        vec!["cat", "!sugar_cane"],
    ];
    let mut sat_solver = SATSolver::parse_cnf(cnf).unwrap();
    let (satisfiable, solution) = sat_solver.solve();
    assert_eq!(satisfiable, true);
    assert_eq!(solution, Some(vec!["apple".to_string(), "cat".to_string()]));
}

#[test]
fn simple_unsatisfiable() {
    let cnf = vec![vec!["a"], vec!["!a"]];
    let mut sat_solver = SATSolver::parse_cnf(cnf).unwrap();
    let (satisfiable, _) = sat_solver.solve();
    assert_eq!(satisfiable, false);
}

#[test]
fn complex() {
    let cnf = vec![
        vec!["apple", "!cat"],
        vec!["!apple", "sugar_cane", "cat"],
        vec!["!sugar_cane", "apple", "!cat"],
        vec!["cat", "!sugar_cane"],
    ];
    let mut sat_solver = SATSolver::parse_cnf(cnf).unwrap();
    let (satisfiable, solution) = sat_solver.solve();
    assert_eq!(satisfiable, true);
    assert_eq!(solution, Some(vec!["apple".to_string(), "cat".to_string()]));
}

#[test]
fn empty_cnf_is_trivially_satisfiable() {
    let cnf: Vec<Vec<&str>> = vec![];
    let mut sat_solver = SATSolver::parse_cnf(cnf).unwrap();
    assert_eq!(sat_solver.total_literals, 0);
    let (satisfiable, solution) = sat_solver.solve();
    assert_eq!(satisfiable, true);
    assert_eq!(solution, Some(vec![]));
}

// A literally empty clause is stored as an always-empty-under-mask
// vector: it acts as a pre-existing contradiction, never as "no
// constraint".
#[test]
fn empty_clause_is_a_contradiction() {
    let cnf: Vec<Vec<&str>> = vec![vec!["a"], vec![]];
    let mut sat_solver = SATSolver::parse_cnf(cnf).unwrap();
    let (satisfiable, solution) = sat_solver.solve();
    assert_eq!(satisfiable, false);
    assert_eq!(solution, None);
}

#[test]
fn bare_negation_marker_is_malformed() {
    let cnf = vec![vec!["a"], vec!["b", "!"]];
    let err = SATSolver::parse_cnf(cnf).unwrap_err();
    assert_eq!(err, ParseError::MalformedToken { clause: 1, token: 1 });
}

#[test]
fn empty_token_is_malformed() {
    let cnf = vec![vec![""]];
    let err = SATSolver::parse_cnf(cnf).unwrap_err();
    assert_eq!(err, ParseError::MalformedToken { clause: 0, token: 0 });
}

// Within one clause the last token naming a variable wins the slot, so
// a clause holding both polarities of one variable keeps the later one.
#[test]
fn both_polarities_last_token_wins() {
    let cnf = vec![vec!["a", "!a"]];
    let mut sat_solver = SATSolver::parse_cnf(cnf).unwrap();
    assert_eq!(sat_solver.clauses[0].disjunction[0], Literal::MustNot);
    let (satisfiable, solution) = sat_solver.solve();
    assert_eq!(satisfiable, true);
    assert_eq!(solution, Some(vec!["!a".to_string()]));
}

// The first branch (positive polarity) fails here and the solver must
// backtrack and try the negative polarity of the lowest variable.
#[test]
fn branch_and_backtrack() {
    let cnf = vec![vec!["!a", "b"], vec!["!a", "!b"], vec!["a", "b"]];
    let mut sat_solver = SATSolver::parse_cnf(cnf).unwrap();
    let (satisfiable, solution) = sat_solver.solve();
    assert_eq!(satisfiable, true);
    assert_eq!(solution, Some(vec!["!a".to_string(), "b".to_string()]));
}

// All four polarity combinations over two variables: unsatisfiable
// only after the search exhausts both branches.
#[test]
fn exhausted_branches_unsatisfiable() {
    let cnf = vec![
        vec!["a", "b"],
        vec!["!a", "b"],
        vec!["a", "!b"],
        vec!["!a", "!b"],
    ];
    let mut sat_solver = SATSolver::parse_cnf(cnf).unwrap();
    let (satisfiable, solution) = sat_solver.solve();
    assert_eq!(satisfiable, false);
    assert_eq!(solution, None);
}

// Solving the same CNF twice from two fresh parses yields bit-identical
// output, assignments in the same order included.
#[test]
fn repeated_solves_are_deterministic() {
    let build = || {
        vec![
            vec!["apple", "!cat"],
            vec!["!apple", "sugar_cane", "cat"],
            vec!["!sugar_cane", "apple", "!cat"],
            vec!["cat", "!sugar_cane"],
        ]
    };
    let mut first = SATSolver::parse_cnf(build()).unwrap();
    let mut second = SATSolver::parse_cnf(build()).unwrap();
    assert_eq!(first.solve(), second.solve());
}

// Every clause of a satisfiable input holds at least one literal of the
// reported assignment with the reported polarity.
#[test]
fn reported_assignment_satisfies_every_clause() {
    let cnf = vec![
        vec!["apple", "!cat"],
        vec!["!apple", "sugar_cane", "cat"],
        vec!["!sugar_cane", "apple", "!cat"],
        vec!["cat", "!sugar_cane"],
    ];
    let mut sat_solver = SATSolver::parse_cnf(cnf.clone()).unwrap();
    let (satisfiable, solution) = sat_solver.solve();
    assert_eq!(satisfiable, true);
    let assignment = solution.unwrap();
    for clause in &cnf {
        let mut matched = false;
        for token in clause {
            if assignment.iter().any(|lit| lit == token) {
                matched = true;
            }
        }
        assert!(matched, "clause {:?} left unsatisfied by {:?}", clause, assignment);
    }
}

// Variables the trail never touched are omitted from the reported
// assignment rather than given arbitrary values.
#[test]
fn untouched_variables_are_omitted() {
    let cnf = vec![
        vec!["apple", "!cat", "kangaroo"],
        vec!["sugar_cane", "!cat"],
        vec!["!sugar_cane", "apple", "eagle"],
    ];
    let mut sat_solver = SATSolver::parse_cnf(cnf).unwrap();
    assert_eq!(sat_solver.total_literals, 5);
    let (_, solution) = sat_solver.solve();
    let assignment = solution.unwrap();
    assert!(!assignment.iter().any(|lit| lit.contains("kangaroo")));
    assert!(!assignment.iter().any(|lit| lit.contains("eagle")));
}

// The three clause queries answer against the mask and the trail they
// are handed, with no hidden clause state.
#[test]
fn clause_queries_follow_mask_and_trail() {
    let cnf = vec![vec!["a", "!b", "c"]];
    let sat_solver = SATSolver::parse_cnf(cnf).unwrap();
    let clause = &sat_solver.clauses[0];
    assert_eq!(clause.find_unit(&vec![true, true, true]), None);
    assert_eq!(
        clause.find_unit(&vec![false, true, false]),
        Some((Literal::MustNot, 1))
    );
    assert!(!clause.is_empty(&vec![false, true, false]));
    assert!(clause.is_empty(&vec![false, false, false]));
    assert!(clause.is_satisfied(&vec![(Literal::Must, 2)]));
    assert!(!clause.is_satisfied(&vec![(Literal::MustNot, 0)]));
}
