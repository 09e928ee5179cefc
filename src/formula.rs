//! The mathematical model of literals, clauses and assignments.
use vstd::prelude::*;

verus! {

/// A literal names variable `|l| - 1`, positively when `l > 0`.
pub open spec fn lit_ok(l: i32, n: nat) -> bool {
    l != 0 && (if l > 0 { l as int <= n } else { -(l as int) <= n })
}

/// The variable index of a literal.
pub open spec fn lit_var(l: i32) -> int {
    if l > 0 { l - 1 } else { -l - 1 }
}

/// Whether a literal is true under an assignment.
pub open spec fn lit_holds(l: i32, a: Seq<bool>) -> bool {
    if l > 0 { a[lit_var(l)] } else { !a[lit_var(l)] }
}

/// Every literal of every clause is in range for `n` variables.
pub open spec fn clauses_ok(cls: Seq<Seq<i32>>, n: nat) -> bool {
    forall|i: int, j: int| 0 <= i < cls.len() && 0 <= j < cls[i].len() ==> lit_ok(#[trigger] cls[i][j], n)
}

/// A clause holds when one of its literals does.
pub open spec fn clause_holds(c: Seq<i32>, a: Seq<bool>) -> bool {
    exists|j: int| 0 <= j < c.len() && lit_holds(#[trigger] c[j], a)
}

/// Every clause holds.
pub open spec fn all_hold(cls: Seq<Seq<i32>>, a: Seq<bool>) -> bool {
    forall|i: int| 0 <= i < cls.len() ==> clause_holds(#[trigger] cls[i], a)
}

/// No assignment of `n` variables makes every clause hold.
pub open spec fn unsatisfiable(cls: Seq<Seq<i32>>, n: nat) -> bool {
    forall|a: Seq<bool>| a.len() == n ==> !#[trigger] all_hold(cls, a)
}

/// The assignment agrees with every pinned variable.
pub open spec fn agrees(forced: Seq<Option<bool>>, a: Seq<bool>) -> bool {
    &&& a.len() == forced.len()
    &&& forall|v: int| 0 <= v < forced.len() && (#[trigger] forced[v]).is_some() ==> a[v] == forced[v].unwrap()
}

/// The number of literals of `c` that hold under `a`.
pub open spec fn count_true(c: Seq<i32>, a: Seq<bool>) -> nat
    decreases c.len(),
{
    if c.len() == 0 {
        0
    } else {
        count_true(c.drop_last(), a) + if lit_holds(c.last(), a) { 1nat } else { 0nat }
    }
}

/// No two literals of the clause share a variable.
pub open spec fn distinct_vars(c: Seq<i32>) -> bool {
    forall|i: int, j: int| 0 <= i < j < c.len() ==> lit_var(#[trigger] c[i]) != lit_var(#[trigger] c[j])
}

pub proof fn lemma_count_bounds(c: Seq<i32>, a: Seq<bool>)
    ensures
        count_true(c, a) <= c.len(),
        count_true(c, a) > 0 <==> clause_holds(c, a),
    decreases c.len(),
{
    if c.len() > 0 {
        lemma_count_bounds(c.drop_last(), a);
        if clause_holds(c.drop_last(), a) {
            let j = choose|j: int| 0 <= j < c.drop_last().len() && lit_holds(#[trigger] c.drop_last()[j], a);
            assert(lit_holds(c[j], a));
        }
        if clause_holds(c, a) {
            let j = choose|j: int| 0 <= j < c.len() && lit_holds(#[trigger] c[j], a);
            if j < c.len() - 1 {
                assert(lit_holds(c.drop_last()[j], a));
            }
        }
        if lit_holds(c.last(), a) {
            assert(lit_holds(c[c.len() - 1], a));
        }
    }
}

/// Clause `c` holds a literal of variable `v` with the given sign.
pub open spec fn has_sign(c: Seq<i32>, v: int, positive: bool) -> bool {
    exists|t: int| 0 <= t < c.len() && lit_var(#[trigger] c[t]) == v && (c[t] > 0) == positive
}

/// Flipping variable `v` changes the count of a clause with distinct variables by
/// one exactly when the clause mentions `v`, which it does with one sign at most.
pub proof fn lemma_count_flip(c: Seq<i32>, a: Seq<bool>, v: int)
    requires
        distinct_vars(c),
        0 <= v < a.len(),
        forall|j: int| 0 <= j < c.len() ==> 0 <= lit_var(#[trigger] c[j]) < a.len(),
    ensures
        ({
            let b = a.update(v, !a[v]);
            &&& has_sign(c, v, true) ==> count_true(c, b) as int == if a[v] { count_true(c, a) as int - 1 } else { count_true(c, a) as int + 1 }
            &&& has_sign(c, v, false) ==> count_true(c, b) as int == if a[v] { count_true(c, a) as int + 1 } else { count_true(c, a) as int - 1 }
            &&& !has_sign(c, v, true) && !has_sign(c, v, false) ==> count_true(c, b) == count_true(c, a)
            &&& !(has_sign(c, v, true) && has_sign(c, v, false))
        }),
    decreases c.len(),
{
    let b = a.update(v, !a[v]);
    if c.len() > 0 {
        let d = c.drop_last();
        assert forall|i: int, j: int| 0 <= i < j < d.len() implies lit_var(#[trigger] d[i]) != lit_var(#[trigger] d[j]) by {
            assert(d[i] == c[i] && d[j] == c[j]);
        }
        assert forall|j: int| 0 <= j < d.len() implies 0 <= lit_var(#[trigger] d[j]) < a.len() by {
            assert(d[j] == c[j]);
        }
        lemma_count_flip(d, a, v);
        let l = c.last();
        assert(l == c[c.len() - 1]);
        if lit_var(l) != v {
            assert(lit_holds(l, b) == lit_holds(l, a));
        }
        assert forall|p: bool| #[trigger] has_sign(c, v, p) <==> has_sign(d, v, p) || (lit_var(l) == v && (l > 0) == p) by {
            if has_sign(c, v, p) {
                let t = choose|t: int| 0 <= t < c.len() && lit_var(#[trigger] c[t]) == v && (c[t] > 0) == p;
                if t < d.len() {
                    assert(d[t] == c[t]);
                }
            }
            if has_sign(d, v, p) {
                let t = choose|t: int| 0 <= t < d.len() && lit_var(#[trigger] d[t]) == v && (d[t] > 0) == p;
                assert(c[t] == d[t]);
            }
            if lit_var(l) == v && (l > 0) == p {
                assert(lit_var(c[c.len() - 1]) == v);
            }
        }
        if lit_var(l) == v {
            assert forall|p: bool| !#[trigger] has_sign(d, v, p) by {
                if has_sign(d, v, p) {
                    let t = choose|t: int| 0 <= t < d.len() && lit_var(#[trigger] d[t]) == v && (d[t] > 0) == p;
                    assert(c[t] == d[t]);
                    assert(lit_var(c[t]) != lit_var(c[c.len() - 1]));
                }
            }
        }
        assert(has_sign(c, v, true) == (has_sign(d, v, true) || (lit_var(l) == v && l > 0)));
        assert(has_sign(c, v, false) == (has_sign(d, v, false) || (lit_var(l) == v && !(l > 0))));
    }
}

/// The variable index of a literal that is in range.
pub fn var_of(l: i32) -> (r: usize)
    requires
        l != 0,
    ensures
        r as int == lit_var(l),
{
    if l > 0 { (l - 1) as usize } else { (-(l as i64) - 1) as usize }
}

/// Whether `l` occurs in `c` at a position of `from` or later.
pub fn occurs_from(c: &Vec<i32>, from: usize, l: i32) -> (r: bool)
    ensures
        r == exists|j: int| from <= j < c.len() && c@[j] == l,
{
    let mut j = from;
    while j < c.len()
        invariant
            from <= j,
            forall|k: int| from <= k < j ==> c@[k] != l,
        decreases c.len() - j,
    {
        if c[j] == l {
            assert(c@[j as int] == l);
            return true;
        }
        j += 1;
    }
    false
}

} // verus!
