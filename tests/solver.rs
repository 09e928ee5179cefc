use rand::SeedableRng;
use sat_walk::search::build_occurrences;
use sat_walk::{
    initial_assignment, preprocess, propagate, reduce_clause, simplify_pass, solve_challenge,
    solve_traced, validate, Challenge, SearchState, SolveError, FLIP_FACTOR,
};

fn holds(clauses: &[Vec<i32>], a: &[bool]) -> bool {
    clauses.iter().all(|c| {
        c.iter().any(|&l| {
            let v = (l.abs() - 1) as usize;
            if l > 0 { a[v] } else { !a[v] }
        })
    })
}

fn challenge(seed: u64, n: usize, clauses: Vec<Vec<i32>>) -> Challenge {
    Challenge { seed, num_variables: n, clauses }
}

/// Pseudo-random 3-SAT instance from a simple linear congruential sequence.
fn random_instance(n: usize, m: usize, seed: u64) -> Vec<Vec<i32>> {
    let mut x = seed;
    let mut next = move || {
        x = x.wrapping_mul(6364136223846793005).wrapping_add(1442695040888963407);
        (x >> 33) as usize
    };
    let mut clauses = Vec::new();
    for _ in 0..m {
        let mut c = Vec::new();
        while c.len() < 3 {
            let v = (next() % n) as i32 + 1;
            if c.iter().any(|&l: &i32| l.abs() == v) {
                continue;
            }
            c.push(if next() % 2 == 0 { v } else { -v });
        }
        clauses.push(c);
    }
    clauses
}

fn check_residual(st: &SearchState) {
    for c in 0..st.clauses.len() {
        let in_set = st.residual.items.contains(&c);
        assert_eq!(st.satisfied[c] == 0, in_set, "clause {}", c);
        let count = st.clauses[c]
            .iter()
            .filter(|&&l| {
                let v = (l.abs() - 1) as usize;
                if l > 0 { st.variables[v] } else { !st.variables[v] }
            })
            .count();
        assert_eq!(st.satisfied[c], count);
    }
}

#[test]
fn contradiction_gives_no_solution() {
    let r = solve_challenge(&challenge(0, 1, vec![vec![1], vec![-1]]));
    assert_eq!(r.map(|s| s.is_none()), Ok(true));
}

#[test]
fn empty_clause_gives_no_solution() {
    assert!(preprocess(2, &vec![vec![1, 2], vec![]]).is_none());
}

#[test]
fn unit_clause_forces_variable() {
    let clauses = vec![vec![3], vec![3, 1], vec![-3, 1, 2], vec![1, -2, 4]];
    let s = preprocess(4, &clauses).unwrap();
    assert_eq!(s.forced, vec![None, None, Some(true), None]);
    assert_eq!(s.clauses, vec![vec![1, 2], vec![1, -2, 4]]);
}

#[test]
fn negative_unit_propagates_in_chain() {
    let clauses = vec![vec![-1], vec![1, 2], vec![-2, 3, 4]];
    let s = preprocess(4, &clauses).unwrap();
    assert_eq!(s.forced, vec![Some(false), Some(true), None, None]);
    assert_eq!(s.clauses, vec![vec![3, 4]]);
}

#[test]
fn tautology_and_duplicates_removed() {
    let s = preprocess(3, &vec![vec![1, -1, 2], vec![2, 2, 3], vec![1, 3]]).unwrap();
    assert_eq!(s.clauses, vec![vec![2, 3], vec![1, 3]]);
    assert_eq!(s.forced, vec![None, None, None]);
}

#[test]
fn reduce_clause_cases() {
    let forced = vec![Some(true), Some(false), None, None];
    assert_eq!(reduce_clause(&vec![1, 3], &forced), None);
    assert_eq!(reduce_clause(&vec![2, 3, 4], &forced), Some(vec![3, 4]));
    assert_eq!(reduce_clause(&vec![3, -3], &forced), None);
    assert_eq!(reduce_clause(&vec![4, 3, 4], &forced), Some(vec![3, 4]));
    assert_eq!(reduce_clause(&vec![3, 4], &forced), Some(vec![3, 4]));
}

#[test]
fn pass_reports_change() {
    let mut forced = vec![None, None];
    let (next, done) = simplify_pass(&vec![vec![1, 2], vec![1, 1]], &mut forced).unwrap();
    assert!(!done);
    assert_eq!(next, vec![vec![1, 2]]);
    assert_eq!(forced, vec![Some(true), None]);
    let (again, done) = simplify_pass(&vec![vec![1, 2]], &mut vec![None, None]).unwrap();
    assert!(done);
    assert_eq!(again, vec![vec![1, 2]]);
}

#[test]
fn preprocessing_is_idempotent() {
    let clauses = random_instance(12, 40, 7);
    let mut with_units = clauses.clone();
    with_units.push(vec![5]);
    with_units.push(vec![-7]);
    let s = preprocess(12, &with_units).unwrap();
    let again = propagate(s.clauses.clone(), s.forced.clone()).unwrap();
    assert_eq!(again.clauses, s.clauses);
    assert_eq!(again.forced, s.forced);
}

#[test]
fn trivial_instance_is_solved() {
    let clauses = vec![vec![1, 2], vec![-1, 2]];
    for seed in 0..20u64 {
        let o = solve_traced(&challenge(seed, 2, clauses.clone())).unwrap();
        assert!(o.flips < 2 * FLIP_FACTOR);
        assert!(o.variables[1]);
        assert!(holds(&clauses, &o.variables));
        let s = solve_challenge(&challenge(seed, 2, clauses.clone())).unwrap().unwrap();
        assert!(holds(&clauses, &s.variables));
    }
}

#[test]
fn same_seed_same_assignment() {
    let clauses = random_instance(30, 128, 3);
    let a = solve_challenge(&challenge(42, 30, clauses.clone())).unwrap().unwrap();
    let b = solve_challenge(&challenge(42, 30, clauses.clone())).unwrap().unwrap();
    assert_eq!(a.variables, b.variables);
}

#[test]
fn flips_stay_within_budget() {
    for seed in 0..5u64 {
        // Above the satisfiability threshold: many flips, often the whole budget.
        let clauses = random_instance(20, 120, seed);
        let o = solve_traced(&challenge(seed, 20, clauses.clone())).unwrap();
        assert!(o.flips <= 20 * FLIP_FACTOR);
        assert_eq!(o.variables.len(), 20);
        if o.flips < 20 * FLIP_FACTOR {
            assert!(holds(&clauses, &o.variables));
        }
    }
}

#[test]
fn easy_random_instance_is_solved() {
    let clauses = random_instance(40, 100, 11);
    let o = solve_traced(&challenge(5, 40, clauses.clone())).unwrap();
    assert!(o.flips < 40 * FLIP_FACTOR);
    assert!(holds(&clauses, &o.variables));
}

#[test]
fn malformed_literals_are_refused() {
    assert_eq!(solve_challenge(&challenge(0, 2, vec![vec![1, 3]])).err(), Some(SolveError::MalformedLiteral));
    assert_eq!(solve_challenge(&challenge(0, 2, vec![vec![0, 1]])).err(), Some(SolveError::MalformedLiteral));
    assert_eq!(solve_challenge(&challenge(0, 2, vec![vec![-3]])).err(), Some(SolveError::MalformedLiteral));
    assert!(validate(2, &vec![vec![1, -2], vec![2]]));
    assert!(!validate(2, &vec![vec![i32::MIN]]));
}

#[test]
fn no_clauses_keeps_assignment_length() {
    let s = solve_challenge(&challenge(9, 4, vec![])).unwrap().unwrap();
    assert_eq!(s.variables.len(), 4);
}

#[test]
fn occurrence_lists_are_exact() {
    let clauses = vec![vec![1, -2], vec![2, 3], vec![-1, -3]];
    let (pos, neg) = build_occurrences(&clauses, 3);
    assert_eq!(pos, vec![vec![0], vec![1], vec![1]]);
    assert_eq!(neg, vec![vec![2], vec![0], vec![2]]);
}

#[test]
fn counters_and_residual_agree_after_every_flip() {
    let clauses = random_instance(15, 60, 21);
    let s = preprocess(15, &clauses).unwrap();
    let mut rng = rand::rngs::StdRng::seed_from_u64(1);
    let start = initial_assignment(&s.forced, &mut rng);
    let mut st = SearchState::new(s.clauses.clone(), start);
    check_residual(&st);
    for step in 0..200usize {
        let v = (step * 7) % 15;
        st.flip(v);
        check_residual(&st);
    }
}

#[test]
fn break_counts_and_ties() {
    // x1 = true, x2 = false, x3 = false.
    let clauses = vec![vec![1, 2], vec![1, 3], vec![-1, 2, 3], vec![2, 3]];
    let st = SearchState::new(clauses, vec![true, false, false]);
    assert_eq!(st.satisfied, vec![1, 1, 0, 0]);
    assert_eq!(st.break_count(0), 2);
    assert_eq!(st.break_count(1), 0);
    assert_eq!(st.break_count(2), 0);
    let (least, cands) = st.least_breaking(2);
    assert_eq!(least, 0);
    assert_eq!(cands, vec![1, 2]);
    let mut rng = rand::rngs::StdRng::seed_from_u64(3);
    for _ in 0..20 {
        let v = st.pick_variable(2, &mut rng);
        assert!(v == 1 || v == 2);
    }
}

#[test]
fn random_walk_picks_stay_in_clause() {
    // Every variable of clause 0 breaks something, so the coin decides.
    let clauses = vec![vec![1, 2, 3], vec![-1, 4], vec![-2, 4], vec![-3, 4], vec![1, -4], vec![2, -4], vec![3, -4]];
    let st = SearchState::new(clauses, vec![false, false, false, false]);
    let (least, _) = st.least_breaking(0);
    assert!(least > 0);
    let mut rng = rand::rngs::StdRng::seed_from_u64(8);
    let mut seen = [false; 4];
    for _ in 0..200 {
        let v = st.pick_variable(0, &mut rng);
        assert!(v < 3);
        seen[v] = true;
    }
    assert!(seen[0] && seen[1] && seen[2]);
}

#[test]
fn initial_assignment_keeps_pins() {
    let forced = vec![Some(true), None, Some(false), None, None, None, None, None];
    let mut rng = rand::rngs::StdRng::seed_from_u64(17);
    let mut any_true = false;
    let mut any_false = false;
    for _ in 0..10 {
        let a = initial_assignment(&forced, &mut rng);
        assert_eq!(a.len(), 8);
        assert!(a[0]);
        assert!(!a[2]);
        any_true |= a[1..].iter().any(|&b| b);
        any_false |= a.iter().enumerate().any(|(i, &b)| i != 2 && !b);
    }
    assert!(any_true && any_false);
}

#[test]
fn opposite_units_in_larger_instance() {
    let clauses = vec![vec![2, 3], vec![-2], vec![1, 3], vec![2]];
    assert!(preprocess(3, &clauses).is_none());
    let r = solve_challenge(&challenge(4, 3, clauses));
    assert_eq!(r.map(|s| s.is_none()), Ok(true));
}

#[test]
fn propagated_conflict_gives_no_solution() {
    // 1 forces 2 through [-1, 2]; then [-2] contradicts it.
    let clauses = vec![vec![1], vec![-1, 2], vec![-2, 3], vec![-2, -3]];
    assert!(preprocess(3, &clauses).is_none());
}

#[test]
fn propagation_alone_solves_instance() {
    // [3] pins x3 true, [3, 1] goes, [-3, -1] shrinks to the unit [-1].
    let clauses = vec![vec![3], vec![3, 1], vec![-3, -1]];
    let s = preprocess(3, &clauses).unwrap();
    assert!(s.clauses.is_empty());
    assert_eq!(s.forced, vec![Some(false), None, Some(true)]);
    let o = solve_traced(&challenge(6, 3, clauses.clone())).unwrap();
    assert_eq!(o.flips, 0);
    assert!(o.variables[2]);
    assert!(!o.variables[0]);
    assert!(holds(&clauses, &o.variables));
    let sol = solve_challenge(&challenge(6, 3, clauses.clone())).unwrap().unwrap();
    assert!(sol.variables[2] && !sol.variables[0]);
}

#[test]
fn pinned_values_survive_search() {
    let mut clauses = random_instance(20, 60, 13);
    clauses.push(vec![4]);
    clauses.push(vec![-9]);
    let s = preprocess(20, &clauses).unwrap();
    let o = solve_traced(&challenge(2, 20, clauses)).unwrap();
    for (v, pin) in s.forced.iter().enumerate() {
        if let Some(b) = pin {
            assert_eq!(o.variables[v], *b);
        }
    }
    assert!(o.variables[3]);
    assert!(!o.variables[8]);
}

#[test]
fn smallest_literal_is_in_range_for_large_counts() {
    assert!(validate(1usize << 31, &vec![vec![i32::MIN, 1]]));
    assert!(!validate((1usize << 31) - 1, &vec![vec![i32::MIN]]));
}
