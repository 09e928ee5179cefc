//! The solve entry points: validate, preprocess, draw the starting assignment,
//! run the local search.
use rand::rngs::StdRng;
use vstd::prelude::*;
use crate::formula::{agrees, all_hold, clauses_ok, distinct_vars, lit_ok, lit_var, unsatisfiable};
use crate::random::{coin, seeded};
use crate::search::{mentioned, searchable, SearchState};
use crate::simplify::{clean_clause, fixpoint, no_pins, preprocess, reduced, rows, simplified_from};

verus! {

/// Flips allowed per variable: the search makes at most
/// `num_variables * FLIP_FACTOR` flips.
pub const FLIP_FACTOR: usize = 25;

/// The flip budget for `n` variables (capped at the largest `usize`).
pub open spec fn flip_budget(n: nat) -> nat {
    if n * (FLIP_FACTOR as nat) <= usize::MAX { n * (FLIP_FACTOR as nat) } else { usize::MAX as nat }
}

/// An instance: the variable count, the clauses as signed literals, and the
/// seed of the generator.
pub struct Challenge {
    pub seed: u64,
    pub num_variables: usize,
    pub clauses: Vec<Vec<i32>>,
}

/// One value per variable, in variable order.
pub struct Solution {
    pub variables: Vec<bool>,
}

/// The assignment the search ended with, and the number of flips it made.
pub struct SearchOutcome {
    pub variables: Vec<bool>,
    pub flips: usize,
}

/// Why an instance was refused.
#[derive(Debug, Clone, Copy, PartialEq, Eq)]
pub enum SolveError {
    /// A literal is zero or names a variable beyond the count.
    MalformedLiteral,
}

/// Whether every literal of `clauses` names one of `num_variables` variables.
pub fn validate(num_variables: usize, clauses: &Vec<Vec<i32>>) -> (r: bool)
    ensures
        r == clauses_ok(rows(clauses@), num_variables as nat),
{
    let ghost cls = rows(clauses@);
    let mut i: usize = 0;
    while i < clauses.len()
        invariant
            cls == rows(clauses@),
            i <= cls.len(),
            forall|p: int, q: int| 0 <= p < i && 0 <= q < cls[p].len() ==> lit_ok(#[trigger] cls[p][q], num_variables as nat),
        decreases cls.len() - i,
    {
        let c = &clauses[i];
        assert(cls[i as int] == c@);
        let mut j: usize = 0;
        while j < c.len()
            invariant
                cls == rows(clauses@),
                i < cls.len(),
                cls[i as int] == c@,
                j <= c@.len(),
                forall|p: int, q: int| 0 <= p < i && 0 <= q < cls[p].len() ==> lit_ok(#[trigger] cls[p][q], num_variables as nat),
                forall|q: int| 0 <= q < j ==> lit_ok(#[trigger] cls[i as int][q], num_variables as nat),
            decreases c@.len() - j,
        {
            let l = c[j];
            let ok = if l == 0 {
                false
            } else if l > 0 {
                l as u64 <= num_variables as u64
            } else {
                (-(l as i64)) as u64 <= num_variables as u64
            };
            if !ok {
                assert(!lit_ok(cls[i as int][j as int], num_variables as nat));
                return false;
            }
            j += 1;
        }
        i += 1;
    }
    true
}

/// The starting assignment: a pinned variable takes its pin, a free one a fair
/// coin.
pub fn initial_assignment(forced: &Vec<Option<bool>>, rng: &mut StdRng) -> (a: Vec<bool>)
    ensures
        agrees(forced@, a@),
{
    let mut a: Vec<bool> = Vec::with_capacity(forced.len());
    let mut v: usize = 0;
    while v < forced.len()
        invariant
            v <= forced@.len(),
            a@.len() == v,
            forall|w: int| 0 <= w < v && (#[trigger] forced@[w]).is_some() ==> a@[w] == forced@[w].unwrap(),
        decreases forced@.len() - v,
    {
        let value = match forced[v] {
            Some(b) => b,
            None => coin(rng),
        };
        a.push(value);
        v += 1;
    }
    a
}

proof fn lemma_searchable(c1: Seq<Seq<i32>>, f1: Seq<Option<bool>>, n: nat)
    requires
        clauses_ok(c1, n),
        reduced(c1, f1),
    ensures
        searchable(c1, n),
        forall|v: int| 0 <= v < f1.len() && (#[trigger] f1[v]).is_some() ==> !mentioned(c1, v),
{
    assert forall|c: int| 0 <= c < c1.len() implies (#[trigger] c1[c]).len() >= 1 && distinct_vars(c1[c]) by {
        assert(c1[c].len() >= 2 && clean_clause(c1[c], f1));
        assert forall|i: int, j: int| 0 <= i < j < c1[c].len() implies lit_var(#[trigger] c1[c][i]) != lit_var(#[trigger] c1[c][j]) by {
            assert(lit_ok(c1[c][i], n) && lit_ok(c1[c][j], n));
            assert(c1[c][i] != c1[c][j] && c1[c][i] as int != -(c1[c][j] as int));
        }
    }
    assert forall|v: int| 0 <= v < f1.len() && (#[trigger] f1[v]).is_some() implies !mentioned(c1, v) by {
        if mentioned(c1, v) {
            let (c, t) = choose|c: int, t: int| 0 <= c < c1.len() && 0 <= t < c1[c].len() && lit_var(#[trigger] c1[c][t]) == v;
            assert(clean_clause(c1[c], f1));
            assert(f1[lit_var(c1[c][t])].is_none());
        }
    }
}

/// The outcome of preprocessing the challenge's clauses, with no pin to start.
pub open spec fn preprocessed(challenge: &Challenge) -> Option<(Seq<Seq<i32>>, Seq<Option<bool>>)> {
    fixpoint(rows(challenge.clauses@), no_pins(challenge.num_variables as nat))
}

/// Solves `challenge` and reports the flips made. `None` only when unit
/// propagation shows that no assignment satisfies the clauses; otherwise the
/// search's final assignment, which satisfies every clause whenever the search
/// stopped before its budget ran out.
pub fn solve_traced(challenge: &Challenge) -> (r: Option<SearchOutcome>)
    requires
        clauses_ok(rows(challenge.clauses@), challenge.num_variables as nat),
    ensures
        (r is None) == (preprocessed(challenge) is None),
        r is None ==> unsatisfiable(rows(challenge.clauses@), challenge.num_variables as nat),
        r matches Some(o) ==> {
            &&& o.variables@.len() == challenge.num_variables
            &&& agrees(preprocessed(challenge).unwrap().1, o.variables@)
            &&& o.flips <= flip_budget(challenge.num_variables as nat)
            &&& o.flips < flip_budget(challenge.num_variables as nat) ==> all_hold(rows(challenge.clauses@), o.variables@)
            &&& preprocessed(challenge).unwrap().0.len() == 0 ==> o.flips == 0 && all_hold(rows(challenge.clauses@), o.variables@)
        },
{
    let n = challenge.num_variables;
    let ghost c0 = rows(challenge.clauses@);
    let ghost f0 = no_pins(n as nat);
    let simplified = preprocess(n, &challenge.clauses);
    match simplified {
        None => {
            proof {
                assert forall|a: Seq<bool>| a.len() == n implies !#[trigger] all_hold(c0, a) by {
                    assert(agrees(f0, a));
                }
            }
            None
        }
        Some(s) => {
            let ghost c1 = rows(s.clauses@);
            let ghost f1 = s.forced@;
            assert(simplified_from(c0, f0, c1, f1));
            proof {
                lemma_searchable(c1, f1, n as nat);
            }
            let mut rng = seeded(challenge.seed);
            let start = initial_assignment(&s.forced, &mut rng);
            let mut state = SearchState::new(s.clauses, start);
            assert(state.cls() == c1);
            let budget = match n.checked_mul(FLIP_FACTOR) {
                Some(b) => b,
                None => usize::MAX,
            };
            let flips = state.run(budget, &mut rng);
            let variables = state.variables;
            proof {
                let a = variables@;
                assert(agrees(f1, a)) by {
                    assert forall|v: int| 0 <= v < f1.len() && (#[trigger] f1[v]).is_some() implies a[v] == f1[v].unwrap() by {
                        assert(!mentioned(c1, v));
                    }
                }
                assert((agrees(f0, a) && all_hold(c0, a)) <==> (agrees(f1, a) && all_hold(c1, a)));
                assert(agrees(f0, a));
                if c1.len() == 0 {
                    assert(all_hold(c1, start@));
                    assert(all_hold(c1, a));
                }
            }
            Some(SearchOutcome { variables, flips })
        }
    }
}

/// Solves `challenge`: `Err` when a literal is malformed, `Ok(None)` when unit
/// propagation shows that no assignment satisfies the clauses, and otherwise
/// `Ok(Some(_))` with one value per variable: the assignment the search ended
/// with, which the caller checks against the clauses.
pub fn solve_challenge(challenge: &Challenge) -> (r: Result<Option<Solution>, SolveError>)
    ensures
        r is Err <==> !clauses_ok(rows(challenge.clauses@), challenge.num_variables as nat),
        (r matches Ok(None)) <==> clauses_ok(rows(challenge.clauses@), challenge.num_variables as nat) && preprocessed(challenge) is None,
        r matches Ok(None) ==> unsatisfiable(rows(challenge.clauses@), challenge.num_variables as nat),
        r matches Ok(Some(s)) ==> {
            &&& s.variables@.len() == challenge.num_variables
            &&& agrees(preprocessed(challenge).unwrap().1, s.variables@)
            &&& preprocessed(challenge).unwrap().0.len() == 0 ==> all_hold(rows(challenge.clauses@), s.variables@)
        },
{
    if !validate(challenge.num_variables, &challenge.clauses) {
        return Err(SolveError::MalformedLiteral);
    }
    match solve_traced(challenge) {
        None => Ok(None),
        Some(o) => Ok(Some(Solution { variables: o.variables })),
    }
}

} // verus!
