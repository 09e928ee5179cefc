//! The state of the local search: clauses, occurrence lists, assignment,
//! per-clause counts of true literals, and the set of violated clauses.
use vstd::prelude::*;
use crate::formula::{has_sign, all_hold, clause_holds, clauses_ok, count_true, distinct_vars, lemma_count_bounds, lemma_count_flip, lit_holds, lit_ok, lit_var, var_of};
use crate::random::{below, coin};
use crate::residual::ResidualSet;
use rand::rngs::StdRng;
use crate::simplify::rows;

verus! {

/// `occ[v]` lists, once each, exactly the clauses that hold a literal of `v`
/// with the given sign.
pub open spec fn occ_ok(occ: Seq<Vec<usize>>, cls: Seq<Seq<i32>>, n: nat, positive: bool) -> bool {
    &&& occ.len() == n
    &&& forall|v: int, c: int| 0 <= v < n && 0 <= c < cls.len() ==>
        ((#[trigger] occ[v]@.contains(c as usize)) <==> has_sign(cls[c], v, positive))
    &&& forall|v: int, k: int| 0 <= v < n && 0 <= k < occ[v]@.len() ==> (#[trigger] occ[v]@[k]) < cls.len()
    &&& forall|v: int, k1: int, k2: int| 0 <= v < n && 0 <= k1 < k2 < occ[v]@.len() ==> #[trigger] occ[v]@[k1] != #[trigger] occ[v]@[k2]
}

/// The store and each clause have a length that a `usize` holds.
pub open spec fn fits(cls: Seq<Seq<i32>>) -> bool {
    &&& cls.len() <= usize::MAX
    &&& forall|c: int| 0 <= c < cls.len() ==> (#[trigger] cls[c]).len() <= usize::MAX
}

/// The clauses a search can run on over `n` variables: literals in range, at
/// least one literal per clause, no variable twice in a clause.
pub open spec fn searchable(cls: Seq<Seq<i32>>, n: nat) -> bool {
    &&& clauses_ok(cls, n)
    &&& forall|c: int| 0 <= c < cls.len() ==> (#[trigger] cls[c]).len() >= 1 && distinct_vars(cls[c])
}

pub struct SearchState {
    pub clauses: Vec<Vec<i32>>,
    pub positive: Vec<Vec<usize>>,
    pub negative: Vec<Vec<usize>>,
    pub variables: Vec<bool>,
    pub satisfied: Vec<usize>,
    pub residual: ResidualSet,
}

impl SearchState {
    pub open spec fn cls(&self) -> Seq<Seq<i32>> {
        rows(self.clauses@)
    }

    /// The counts are exact, and the residual set holds exactly the clauses
    /// whose count is zero.
    pub open spec fn counters_ok(&self) -> bool {
        &&& self.satisfied@.len() == self.cls().len()
        &&& forall|c: int| 0 <= c < self.cls().len() ==> (#[trigger] self.satisfied@[c]) as nat == count_true(self.cls()[c], self.variables@)
        &&& self.residual.wf(self.cls().len())
        &&& zero_iff(self.satisfied@, self.residual@)
    }

    pub open spec fn wf(&self) -> bool {
        &&& fits(self.cls())
        &&& self.variables@.len() <= usize::MAX
        &&& searchable(self.cls(), self.variables@.len() as nat)
        &&& occ_ok(self.positive@, self.cls(), self.variables@.len() as nat, true)
        &&& occ_ok(self.negative@, self.cls(), self.variables@.len() as nat, false)
        &&& self.counters_ok()
    }
}

proof fn lemma_holds_counted(c: Seq<i32>, a: Seq<bool>, v: int, positive: bool)
    requires
        has_sign(c, v, positive),
        0 <= v < a.len(),
        a[v] == positive,
    ensures
        count_true(c, a) >= 1,
{
    let t = choose|t: int| 0 <= t < c.len() && lit_var(#[trigger] c[t]) == v && (c[t] > 0) == positive;
    assert(lit_holds(c[t], a));
    lemma_count_bounds(c, a);
}

/// The counts of the clauses in `done` are those under `a1`, the others those
/// under `a0`.
#[verifier::opaque]
pub open spec fn counted(sat: Seq<usize>, cls: Seq<Seq<i32>>, a0: Seq<bool>, a1: Seq<bool>, done: Seq<usize>) -> bool {
    &&& sat.len() == cls.len()
    &&& forall|c: usize| (c as int) < cls.len() ==> (#[trigger] sat[c as int]) as nat == if done.contains(c) { count_true(cls[c as int], a1) } else { count_true(cls[c as int], a0) }
}

/// A clause index is in `res` exactly when its count is zero.
pub open spec fn zero_iff(sat: Seq<usize>, res: Set<usize>) -> bool {
    forall|c: usize| (c as int) < sat.len() ==> (sat[c as int] == 0 <==> #[trigger] res.contains(c))
}

proof fn lemma_counted_at(sat: Seq<usize>, cls: Seq<Seq<i32>>, a0: Seq<bool>, a1: Seq<bool>, done: Seq<usize>, c: usize)
    requires
        counted(sat, cls, a0, a1, done),
        (c as int) < cls.len(),
        !done.contains(c),
    ensures
        sat.len() == cls.len(),
        sat[c as int] as nat == count_true(cls[c as int], a0),
{
    reveal(counted);
}

proof fn lemma_counted_step(sat: Seq<usize>, cls: Seq<Seq<i32>>, a0: Seq<bool>, a1: Seq<bool>, done: Seq<usize>, c: usize, x: usize)
    requires
        counted(sat, cls, a0, a1, done),
        (c as int) < cls.len(),
        x as nat == count_true(cls[c as int], a1),
    ensures
        counted(sat.update(c as int, x), cls, a0, a1, done.push(c)),
{
    reveal(counted);
    let s1 = sat.update(c as int, x);
    let d1 = done.push(c);
    assert forall|i: usize| (i as int) < cls.len() implies (#[trigger] s1[i as int]) as nat == if d1.contains(i) { count_true(cls[i as int], a1) } else { count_true(cls[i as int], a0) } by {
        assert(d1[done.len() as int] == c);
        if i != c {
            assert(s1[i as int] == sat[i as int]);
            if d1.contains(i) {
                let j = choose|j: int| 0 <= j < d1.len() && d1[j] == i;
                assert(done[j] == i);
            }
            if done.contains(i) {
                let j = choose|j: int| 0 <= j < done.len() && done[j] == i;
                assert(d1[j] == i);
            }
        }
    }
}

proof fn lemma_zero_iff_at(sat: Seq<usize>, res: Set<usize>, c: usize)
    requires
        zero_iff(sat, res),
        (c as int) < sat.len(),
    ensures
        sat[c as int] == 0 <==> res.contains(c),
{
}

proof fn lemma_zero_iff_step(sat: Seq<usize>, res: Set<usize>, res1: Set<usize>, c: usize, x: usize)
    requires
        zero_iff(sat, res),
        (c as int) < sat.len(),
        sat[c as int] == 0 && x != 0 ==> res1 == res.remove(c),
        sat[c as int] != 0 && x == 0 ==> res1 == res.insert(c),
        (sat[c as int] == 0) == (x == 0) ==> res1 == res,
    ensures
        zero_iff(sat.update(c as int, x), res1),
{
    assert forall|i: usize| (i as int) < sat.len() implies (sat.update(c as int, x)[i as int] == 0 <==> #[trigger] res1.contains(i)) by {
        if i != c {
            assert(sat.update(c as int, x)[i as int] == sat[i as int]);
            assert(res.contains(i) == res1.contains(i));
        }
    }
}

impl SearchState {
    /// Flips variable `v`, and brings the counts and the residual set along:
    /// afterwards a clause is in the residual set exactly when its count is zero.
    pub fn flip(&mut self, v: usize)
        requires
            old(self).wf(),
            v < old(self).variables@.len(),
        ensures
            final(self).wf(),
            final(self).variables@ == old(self).variables@.update(v as int, !old(self).variables@[v as int]),
            final(self).clauses == old(self).clauses,
            final(self).positive == old(self).positive,
            final(self).negative == old(self).negative,
    {
        let ghost a0 = self.variables@;
        let ghost a1 = a0.update(v as int, !a0[v as int]);
        let ghost cls = self.cls();
        let ghost m = cls.len();
        let ghost n = a0.len();
        let was = self.variables[v];
        // The clauses in which `v` is about to become true gain a literal;
        // those in which it is true now lose one.
        let ghost up: Seq<usize> = if was { self.negative@[v as int]@ } else { self.positive@[v as int]@ };
        let ghost down: Seq<usize> = if was { self.positive@[v as int]@ } else { self.negative@[v as int]@ };
        proof {
            assert forall|c: usize| (c as int) < m implies {
                &&& up.contains(c) ==> count_true(#[trigger] cls[c as int], a1) == count_true(cls[c as int], a0) + 1
                &&& down.contains(c) ==> count_true(cls[c as int], a0) >= 1 && count_true(cls[c as int], a1) == count_true(cls[c as int], a0) - 1
                &&& !up.contains(c) && !down.contains(c) ==> count_true(cls[c as int], a1) == count_true(cls[c as int], a0)
                &&& !(up.contains(c) && down.contains(c))
                &&& count_true(cls[c as int], a1) <= cls[c as int].len()
            } by {
                let c = c as int;
                assert(cls[c].len() >= 1 && distinct_vars(cls[c]));
                assert forall|j: int| 0 <= j < cls[c].len() implies 0 <= lit_var(#[trigger] cls[c][j]) < a0.len() by {
                    assert(lit_ok(cls[c][j], n));
                }
                lemma_count_flip(cls[c], a0, v as int);
                lemma_count_bounds(cls[c], a1);
                assert(self.positive@[v as int]@.contains(c as usize) <==> has_sign(cls[c], v as int, true));
                assert(self.negative@[v as int]@.contains(c as usize) <==> has_sign(cls[c], v as int, false));
                if down.contains(c as usize) {
                    if was {
                        lemma_holds_counted(cls[c], a0, v as int, true);
                    } else {
                        lemma_holds_counted(cls[c], a0, v as int, false);
                    }
                }
            }
        }
        let ghost before = self.satisfied@;
        proof {
            reveal(counted);
            assert(up.subrange(0, 0) =~= Seq::<usize>::empty());
        }
        let mut k: usize = 0;
        let up_len = if was { self.negative[v].len() } else { self.positive[v].len() };
        while k < up_len
            invariant
                self.wf_frame(cls, n),
                self.clauses == old(self).clauses,
                self.positive == old(self).positive,
                self.negative == old(self).negative,
                self.variables == old(self).variables,
                a0 == old(self).variables@,
                a1 == a0.update(v as int, !a0[v as int]),
                was == a0[v as int],
                v < n,
                forall|c: usize| (c as int) < m ==> {
                    &&& up.contains(c) ==> count_true(#[trigger] cls[c as int], a1) == count_true(cls[c as int], a0) + 1
                    &&& down.contains(c) ==> count_true(cls[c as int], a0) >= 1 && count_true(cls[c as int], a1) == count_true(cls[c as int], a0) - 1
                    &&& !up.contains(c) && !down.contains(c) ==> count_true(cls[c as int], a1) == count_true(cls[c as int], a0)
                    &&& !(up.contains(c) && down.contains(c))
                    &&& count_true(cls[c as int], a1) <= cls[c as int].len()
                },
                up_len == up.len(),
                up == (if was { self.negative@[v as int]@ } else { self.positive@[v as int]@ }),
                forall|k1: int, k2: int| 0 <= k1 < k2 < up.len() ==> #[trigger] up[k1] != #[trigger] up[k2],
                forall|j: int| 0 <= j < up.len() ==> (#[trigger] up[j] as int) < m,
                k <= up_len,
                counted(self.satisfied@, cls, a0, a1, up.subrange(0, k as int)),
                zero_iff(self.satisfied@, self.residual@),
            decreases up_len - k,
        {
            let c = if was { self.negative[v][k] } else { self.positive[v][k] };
            let ghost pre = up.subrange(0, k as int);
            let ghost sat0 = self.satisfied@;
            let ghost res0 = self.residual@;
            proof {
                assert(up[k as int] == c);
                assert(up.contains(c));
                if pre.contains(c) {
                    let j = choose|j: int| 0 <= j < k && pre[j] == c;
                    assert(up[j] == up[k as int]);
                }
                assert(cls[c as int] == self.clauses@[c as int]@);
                lemma_counted_at(sat0, cls, a0, a1, pre, c);
            }
            proof {
                assert(cls[c as int].len() <= usize::MAX);
            }
            let count = self.satisfied[c] + 1;
            self.satisfied.set(c, count);
            if count == 1 {
                proof {
                    lemma_zero_iff_at(sat0, res0, c);
                }
                self.residual.remove(c);
            }
            proof {
                assert(up.subrange(0, k as int + 1) =~= pre.push(c));
                lemma_counted_step(sat0, cls, a0, a1, pre, c, count);
                lemma_zero_iff_step(sat0, res0, self.residual@, c, count);
            }
            k += 1;
        }
        let mut k: usize = 0;
        let down_len = if was { self.positive[v].len() } else { self.negative[v].len() };
        proof {
            assert(up.subrange(0, up.len() as int) =~= up);
            assert(up + down.subrange(0, 0) =~= up);
        }
        while k < down_len
            invariant
                self.wf_frame(cls, n),
                self.clauses == old(self).clauses,
                self.positive == old(self).positive,
                self.negative == old(self).negative,
                self.variables == old(self).variables,
                a0 == old(self).variables@,
                a1 == a0.update(v as int, !a0[v as int]),
                was == a0[v as int],
                v < n,
                forall|c: usize| (c as int) < m ==> {
                    &&& up.contains(c) ==> count_true(#[trigger] cls[c as int], a1) == count_true(cls[c as int], a0) + 1
                    &&& down.contains(c) ==> count_true(cls[c as int], a0) >= 1 && count_true(cls[c as int], a1) == count_true(cls[c as int], a0) - 1
                    &&& !up.contains(c) && !down.contains(c) ==> count_true(cls[c as int], a1) == count_true(cls[c as int], a0)
                    &&& !(up.contains(c) && down.contains(c))
                    &&& count_true(cls[c as int], a1) <= cls[c as int].len()
                },
                down_len == down.len(),
                down == (if was { self.positive@[v as int]@ } else { self.negative@[v as int]@ }),
                forall|k1: int, k2: int| 0 <= k1 < k2 < down.len() ==> #[trigger] down[k1] != #[trigger] down[k2],
                forall|j: int| 0 <= j < down.len() ==> (#[trigger] down[j] as int) < m,
                k <= down_len,
                counted(self.satisfied@, cls, a0, a1, up + down.subrange(0, k as int)),
                zero_iff(self.satisfied@, self.residual@),
            decreases down_len - k,
        {
            let c = if was { self.positive[v][k] } else { self.negative[v][k] };
            let ghost pre = up + down.subrange(0, k as int);
            let ghost sat0 = self.satisfied@;
            let ghost res0 = self.residual@;
            proof {
                assert(down[k as int] == c);
                assert(down.contains(c));
                if pre.contains(c) {
                    let j = choose|j: int| 0 <= j < pre.len() && pre[j] == c;
                    if j < up.len() {
                        assert(up[j] == c);
                        assert(up.contains(c));
                        assert(count_true(cls[c as int], a1) <= cls[c as int].len());
                    } else {
                        assert(down[j - up.len()] == down[k as int]);
                    }
                }
                lemma_counted_at(sat0, cls, a0, a1, pre, c);
                lemma_zero_iff_at(sat0, res0, c);
            }
            if self.satisfied[c] == 1 {
                self.residual.insert(c);
            }
            let count = self.satisfied[c] - 1;
            self.satisfied.set(c, count);
            proof {
                assert(up + down.subrange(0, k as int + 1) =~= pre.push(c));
                lemma_counted_step(sat0, cls, a0, a1, pre, c, count);
                lemma_zero_iff_step(sat0, res0, self.residual@, c, count);
            }
            k += 1;
        }
        self.variables.set(v, !was);
        proof {
            assert(down.subrange(0, down.len() as int) =~= down);
            assert(self.variables@ == a1);
            assert(self.cls() == cls);
            reveal(counted);
            assert forall|c: int| 0 <= c < m implies (#[trigger] self.satisfied@[c]) as nat == count_true(cls[c], a1) by {
                assert(m <= usize::MAX);
                let cu = c as usize;
                assert(count_true(cls[cu as int], a1) <= cls[cu as int].len());
                assert(self.satisfied@[cu as int] as nat == if (up + down).contains(cu) { count_true(cls[c], a1) } else { count_true(cls[c], a0) });
                if !(up + down).contains(cu) {
                    if up.contains(cu) {
                        let j = choose|j: int| 0 <= j < up.len() && up[j] == cu;
                        assert((up + down)[j] == cu);
                    }
                    if down.contains(cu) {
                        let j = choose|j: int| 0 <= j < down.len() && down[j] == cu;
                        assert((up + down)[up.len() + j] == cu);
                    }
                }
            }
        }
    }

    /// What a flip leaves alone: the clauses, the occurrence lists, the
    /// assignment and the shape of the counters.
    pub open spec fn wf_frame(&self, cls: Seq<Seq<i32>>, n: nat) -> bool {
        &&& self.cls() == cls
        &&& fits(cls)
        &&& self.variables@.len() == n
        &&& searchable(cls, n)
        &&& occ_ok(self.positive@, cls, n, true)
        &&& occ_ok(self.negative@, cls, n, false)
        &&& self.satisfied@.len() == cls.len()
        &&& self.residual.wf(cls.len())
    }
}

/// The occurrence lists after the clauses before `i`, and the first `j`
/// literals of clause `i`, were entered; each list is strictly increasing.
#[verifier::opaque]
pub open spec fn occ_partial(occ: Seq<Vec<usize>>, cls: Seq<Seq<i32>>, n: nat, positive: bool, i: int, j: int) -> bool {
    &&& occ.len() == n
    &&& forall|v: int, c: usize| 0 <= v < n ==> ((#[trigger] occ[v]@.contains(c)) <==>
        ((c as int) < i && has_sign(cls[c as int], v, positive)
        || c as int == i && has_sign(cls[i].subrange(0, j), v, positive)))
    &&& forall|v: int, k: int| 0 <= v < n && 0 <= k < occ[v]@.len() ==> (#[trigger] occ[v]@[k]) as int <= i
    &&& forall|v: int, k1: int, k2: int| 0 <= v < n && 0 <= k1 < k2 < occ[v]@.len() ==> #[trigger] occ[v]@[k1] < #[trigger] occ[v]@[k2]
}


proof fn lemma_occ_start(occ: Seq<Vec<usize>>, cls: Seq<Seq<i32>>, n: nat, positive: bool)
    requires
        occ.len() == n,
        forall|v: int| 0 <= v < n ==> (#[trigger] occ[v])@.len() == 0,
    ensures
        occ_partial(occ, cls, n, positive, 0, 0),
{
    reveal(occ_partial);
    assert forall|v: int, c: usize| 0 <= v < n implies !(#[trigger] occ[v]@.contains(c)) by {
        assert(occ[v]@.len() == 0);
    }
    assert(cls.len() == 0 || cls[0].subrange(0, 0) =~= Seq::<i32>::empty());
}

proof fn lemma_occ_next_clause(occ: Seq<Vec<usize>>, cls: Seq<Seq<i32>>, n: nat, positive: bool, i: int)
    requires
        0 <= i < cls.len(),
        occ_partial(occ, cls, n, positive, i, cls[i].len() as int),
    ensures
        occ_partial(occ, cls, n, positive, i + 1, 0),
{
    reveal(occ_partial);
    assert(cls[i].subrange(0, cls[i].len() as int) =~= cls[i]);
    assert forall|v: int, c: usize| 0 <= v < n implies ((#[trigger] occ[v]@.contains(c)) <==>
        ((c as int) < i + 1 && has_sign(cls[c as int], v, positive)
        || c as int == i + 1 && has_sign(cls[i + 1].subrange(0, 0), v, positive))) by {
        if c as int == i + 1 && i + 1 < cls.len() {
            assert(cls[i + 1].subrange(0, 0) =~= Seq::<i32>::empty());
        }
    }
}

proof fn lemma_occ_literal(occ: Seq<Vec<usize>>, occ1: Seq<Vec<usize>>, cls: Seq<Seq<i32>>, n: nat, positive: bool, i: int, j: int)
    requires
        0 <= i < cls.len(),
        0 <= j < cls[i].len(),
        lit_ok(cls[i][j], n),
        distinct_vars(cls[i]),
        occ_partial(occ, cls, n, positive, i, j),
        (cls[i][j] > 0) == positive ==> occ1 == occ.update(lit_var(cls[i][j]), occ1[lit_var(cls[i][j])])
            && occ1[lit_var(cls[i][j])]@ == occ[lit_var(cls[i][j])]@.push(i as usize),
        (cls[i][j] > 0) != positive ==> occ1 == occ,
        i <= usize::MAX,
    ensures
        occ_partial(occ1, cls, n, positive, i, j + 1),
{
    reveal(occ_partial);
    let l = cls[i][j];
    let x = lit_var(l);
    let pre = cls[i].subrange(0, j);
    let post = cls[i].subrange(0, j + 1);
    assert(post =~= pre.push(l));
    assert(post[j] == l);
    assert forall|v: int| 0 <= v < n implies (#[trigger] has_sign(post, v, positive)) <==>
        (has_sign(pre, v, positive) || (v == x && (l > 0) == positive)) by {
        if has_sign(post, v, positive) {
            let t = choose|t: int| 0 <= t < post.len() && lit_var(#[trigger] post[t]) == v && (post[t] > 0) == positive;
            if t < j {
                assert(pre[t] == post[t]);
            }
        }
        if has_sign(pre, v, positive) {
            let t = choose|t: int| 0 <= t < pre.len() && lit_var(#[trigger] pre[t]) == v && (pre[t] > 0) == positive;
            assert(post[t] == pre[t]);
        }
    }
    assert(!has_sign(pre, x, positive)) by {
        if has_sign(pre, x, positive) {
            let t = choose|t: int| 0 <= t < pre.len() && lit_var(#[trigger] pre[t]) == x && (pre[t] > 0) == positive;
            assert(cls[i][t] == pre[t]);
            assert(lit_var(cls[i][t]) != lit_var(cls[i][j]));
        }
    }
    if (l > 0) == positive {
        assert(!occ[x]@.contains(i as usize));
        assert forall|k: int| 0 <= k < occ[x]@.len() implies (#[trigger] occ[x]@[k]) < i as usize by {
            assert(occ[x]@.contains(occ[x]@[k]));
        }
        assert forall|v: int, c: usize| 0 <= v < n implies ((#[trigger] occ1[v]@.contains(c)) <==>
            ((c as int) < i && has_sign(cls[c as int], v, positive)
            || c as int == i && has_sign(post, v, positive))) by {
            if v == x {
                if occ1[v]@.contains(c) && c != i as usize {
                    let t = choose|t: int| 0 <= t < occ1[v]@.len() && occ1[v]@[t] == c;
                    assert(occ[v]@[t] == c);
                }
                if occ[v]@.contains(c) {
                    let t = choose|t: int| 0 <= t < occ[v]@.len() && occ[v]@[t] == c;
                    assert(occ1[v]@[t] == c);
                }
                assert(occ1[v]@[occ[v]@.len() as int] == i as usize);
            } else {
                assert(occ1[v] == occ[v]);
            }
        }
        assert forall|v: int, k: int| 0 <= v < n && 0 <= k < occ1[v]@.len() implies (#[trigger] occ1[v]@[k]) as int <= i by {
            if v == x && k < occ[v]@.len() {
                assert(occ1[v]@[k] == occ[v]@[k]);
            }
        }
        assert forall|v: int, k1: int, k2: int| 0 <= v < n && 0 <= k1 < k2 < occ1[v]@.len() implies #[trigger] occ1[v]@[k1] < #[trigger] occ1[v]@[k2] by {
            if v == x {
                assert(occ1[v]@[k1] == occ[v]@[k1]);
                if k2 < occ[v]@.len() {
                    assert(occ1[v]@[k2] == occ[v]@[k2]);
                }
            }
        }
    } else {
        assert forall|v: int, c: usize| 0 <= v < n implies ((#[trigger] occ1[v]@.contains(c)) <==>
            ((c as int) < i && has_sign(cls[c as int], v, positive)
            || c as int == i && has_sign(post, v, positive))) by {
            assert(has_sign(post, v, positive) == has_sign(pre, v, positive));
        }
    }
}

proof fn lemma_occ_done(occ: Seq<Vec<usize>>, cls: Seq<Seq<i32>>, n: nat, positive: bool)
    requires
        occ_partial(occ, cls, n, positive, cls.len() as int, 0),
        cls.len() <= usize::MAX,
    ensures
        occ_ok(occ, cls, n, positive),
{
    reveal(occ_partial);
    assert forall|v: int, c: int| 0 <= v < n && 0 <= c < cls.len() implies
        ((#[trigger] occ[v]@.contains(c as usize)) <==> has_sign(cls[c], v, positive)) by {
        let cu = c as usize;
        assert(cu as int == c);
        assert(occ[v]@.contains(cu) <==> ((cu as int) < cls.len() && has_sign(cls[cu as int], v, positive)
            || cu as int == cls.len() && has_sign(cls[cls.len() as int].subrange(0, 0), v, positive)));
    }
    assert forall|v: int, k: int| 0 <= v < n && 0 <= k < occ[v]@.len() implies (#[trigger] occ[v]@[k]) < cls.len() by {
        assert(occ[v]@.contains(occ[v]@[k]));
    }
}

/// The occurrence lists of `clauses` over `n` variables: the clause indices in
/// which each variable stands positively, and those in which it stands negatively.
pub fn build_occurrences(clauses: &Vec<Vec<i32>>, n: usize) -> (r: (Vec<Vec<usize>>, Vec<Vec<usize>>))
    requires
        searchable(rows(clauses@), n as nat),
    ensures
        occ_ok(r.0@, rows(clauses@), n as nat, true),
        occ_ok(r.1@, rows(clauses@), n as nat, false),
{
    let ghost cls = rows(clauses@);
    let mut positive: Vec<Vec<usize>> = Vec::with_capacity(n);
    let mut negative: Vec<Vec<usize>> = Vec::with_capacity(n);
    let mut v: usize = 0;
    while v < n
        invariant
            v <= n,
            positive@.len() == v,
            negative@.len() == v,
            forall|w: int| 0 <= w < v ==> (#[trigger] positive@[w])@.len() == 0,
            forall|w: int| 0 <= w < v ==> (#[trigger] negative@[w])@.len() == 0,
        decreases n - v,
    {
        positive.push(Vec::new());
        negative.push(Vec::new());
        v += 1;
    }
    proof {
        lemma_occ_start(positive@, cls, n as nat, true);
        lemma_occ_start(negative@, cls, n as nat, false);
    }
    let mut i: usize = 0;
    while i < clauses.len()
        invariant
            cls == rows(clauses@),
            searchable(cls, n as nat),
            i <= cls.len(),
            occ_partial(positive@, cls, n as nat, true, i as int, 0),
            occ_partial(negative@, cls, n as nat, false, i as int, 0),
        decreases cls.len() - i,
    {
        let c = &clauses[i];
        assert(cls[i as int] == c@);
        let mut j: usize = 0;
        while j < c.len()
            invariant
                cls == rows(clauses@),
                searchable(cls, n as nat),
                i < cls.len(),
                cls[i as int] == c@,
                j <= c@.len(),
                occ_partial(positive@, cls, n as nat, true, i as int, j as int),
                occ_partial(negative@, cls, n as nat, false, i as int, j as int),
            decreases c@.len() - j,
        {
            let l = c[j];
            assert(lit_ok(cls[i as int][j as int], n as nat));
            assert(cls[i as int].len() >= 1 && distinct_vars(cls[i as int]));
            proof {
                reveal(occ_partial);
            }
            let x = var_of(l);
            let ghost p0 = positive@;
            let ghost n0 = negative@;
            if l > 0 {
                positive[x].push(i);
            } else {
                negative[x].push(i);
            }
            proof {
                if l > 0 {
                    assert(positive@ =~= p0.update(x as int, positive@[x as int]));
                } else {
                    assert(negative@ =~= n0.update(x as int, negative@[x as int]));
                }
                lemma_occ_literal(p0, positive@, cls, n as nat, true, i as int, j as int);
                lemma_occ_literal(n0, negative@, cls, n as nat, false, i as int, j as int);
            }
            j += 1;
        }
        proof {
            lemma_occ_next_clause(positive@, cls, n as nat, true, i as int);
            lemma_occ_next_clause(negative@, cls, n as nat, false, i as int);
        }
        i += 1;
    }
    proof {
        lemma_occ_done(positive@, cls, n as nat, true);
        lemma_occ_done(negative@, cls, n as nat, false);
    }
    (positive, negative)
}

/// The number of true literals of `c` under `a`.
pub fn count_satisfied(c: &Vec<i32>, a: &Vec<bool>) -> (r: usize)
    requires
        forall|j: int| 0 <= j < c@.len() ==> lit_ok(#[trigger] c@[j], a@.len() as nat),
    ensures
        r as nat == count_true(c@, a@),
        c@.len() <= usize::MAX,
{
    let mut count: usize = 0;
    let mut j: usize = 0;
    while j < c.len()
        invariant
            forall|t: int| 0 <= t < c@.len() ==> lit_ok(#[trigger] c@[t], a@.len() as nat),
            j <= c@.len(),
            count as nat == count_true(c@.subrange(0, j as int), a@),
            count <= j,
        decreases c@.len() - j,
    {
        let l = c[j];
        assert(lit_ok(c@[j as int], a@.len() as nat));
        let x = var_of(l);
        let holds = if l > 0 { a[x] } else { !a[x] };
        assert(c@.subrange(0, j as int + 1).drop_last() =~= c@.subrange(0, j as int));
        if holds {
            count += 1;
        }
        j += 1;
    }
    assert(c@.subrange(0, j as int) =~= c@);
    count
}

impl SearchState {
    /// Builds the search state for `clauses` under the assignment `variables`:
    /// occurrence lists, exact counts, and the residual set of violated clauses.
    pub fn new(clauses: Vec<Vec<i32>>, variables: Vec<bool>) -> (r: SearchState)
        requires
            searchable(rows(clauses@), variables@.len() as nat),
        ensures
            r.wf(),
            r.clauses@ == clauses@,
            r.variables@ == variables@,
    {
        let ghost cls = rows(clauses@);
        let n = variables.len();
        let (positive, negative) = build_occurrences(&clauses, n);
        let m = clauses.len();
        let mut satisfied: Vec<usize> = Vec::with_capacity(m);
        let mut i: usize = 0;
        while i < m
            invariant
                m == cls.len(),
                cls == rows(clauses@),
                searchable(cls, n as nat),
                n == variables@.len(),
                i <= m,
                satisfied@.len() == i,
                forall|c: int| 0 <= c < i ==> (#[trigger] satisfied@[c]) as nat == count_true(cls[c], variables@),
                forall|c: int| 0 <= c < i ==> (#[trigger] cls[c]).len() <= usize::MAX,
            decreases m - i,
        {
            assert(cls[i as int] == clauses@[i as int]@);
            assert forall|j: int| 0 <= j < clauses@[i as int]@.len() implies lit_ok(#[trigger] clauses@[i as int]@[j], variables@.len() as nat) by {
                assert(lit_ok(cls[i as int][j], n as nat));
            }
            let count = count_satisfied(&clauses[i], &variables);
            satisfied.push(count);
            i += 1;
        }
        let mut residual = ResidualSet::new(m);
        let mut i: usize = 0;
        while i < m
            invariant
                m == cls.len(),
                satisfied@.len() == m,
                i <= m,
                residual.wf(m as nat),
                forall|c: usize| (c as int) < i ==> (satisfied@[c as int] == 0 <==> #[trigger] residual@.contains(c)),
                forall|c: usize| #[trigger] residual@.contains(c) ==> (c as int) < i,
            decreases m - i,
        {
            if satisfied[i] == 0 {
                residual.insert(i);
            }
            i += 1;
        }
        let r = SearchState { clauses, positive, negative, variables, satisfied, residual };
        r
    }

    /// The clauses that flipping `v` would break: the entries of its
    /// satisfying occurrence list whose count is exactly one.
    pub open spec fn break_of(&self, v: int) -> nat {
        ones(if self.variables@[v] { self.positive@[v]@ } else { self.negative@[v]@ }, self.satisfied@)
    }

    /// The variables of the literals of `c` whose break count is `b`, in order.
    pub open spec fn ties(&self, c: Seq<i32>, b: nat) -> Seq<usize>
        decreases c.len(),
    {
        if c.len() == 0 {
            Seq::empty()
        } else if self.break_of(lit_var(c.last())) == b {
            self.ties(c.drop_last(), b).push(lit_var(c.last()) as usize)
        } else {
            self.ties(c.drop_last(), b)
        }
    }
}

/// The number of entries of `occ` whose count in `sat` is exactly one.
pub open spec fn ones(occ: Seq<usize>, sat: Seq<usize>) -> nat
    decreases occ.len(),
{
    if occ.len() == 0 {
        0
    } else {
        ones(occ.drop_last(), sat) + if sat[occ.last() as int] == 1 { 1nat } else { 0nat }
    }
}

/// Some clause holds a literal of variable `v`.
pub open spec fn mentioned(cls: Seq<Seq<i32>>, v: int) -> bool {
    exists|c: int, t: int| 0 <= c < cls.len() && 0 <= t < cls[c].len() && lit_var(#[trigger] cls[c][t]) == v
}

proof fn lemma_ties_none(st: &SearchState, c: Seq<i32>, b: nat)
    requires
        forall|t: int| 0 <= t < c.len() ==> st.break_of(lit_var(#[trigger] c[t])) != b,
    ensures
        st.ties(c, b) == Seq::<usize>::empty(),
    decreases c.len(),
{
    if c.len() > 0 {
        assert(c.last() == c[c.len() - 1]);
        assert forall|t: int| 0 <= t < c.drop_last().len() implies st.break_of(lit_var(#[trigger] c.drop_last()[t])) != b by {
            assert(c.drop_last()[t] == c[t]);
        }
        lemma_ties_none(st, c.drop_last(), b);
    }
}

proof fn lemma_ties_vars(st: &SearchState, c: Seq<i32>, b: nat, k: int)
    requires
        0 <= k < st.ties(c, b).len(),
        forall|t: int| 0 <= t < c.len() ==> 0 <= lit_var(#[trigger] c[t]) < usize::MAX,
    ensures
        exists|t: int| 0 <= t < c.len() && lit_var(#[trigger] c[t]) == st.ties(c, b)[k] as int && st.break_of(lit_var(c[t])) == b,
    decreases c.len(),
{
    if c.len() > 0 {
        let d = c.drop_last();
        assert forall|t: int| 0 <= t < d.len() implies 0 <= lit_var(#[trigger] d[t]) < usize::MAX by {
            assert(d[t] == c[t]);
        }
        assert(c.last() == c[c.len() - 1]);
        if k < st.ties(d, b).len() {
            lemma_ties_vars(st, d, b, k);
            let t = choose|t: int| 0 <= t < d.len() && lit_var(#[trigger] d[t]) == st.ties(d, b)[k] as int && st.break_of(lit_var(d[t])) == b;
            assert(d[t] == c[t]);
        }
    }
}

impl SearchState {
    /// The break count of variable `v`.
    pub fn break_count(&self, v: usize) -> (r: usize)
        requires
            self.wf(),
            v < self.variables@.len(),
        ensures
            r as nat == self.break_of(v as int),
    {
        let ghost occ = if self.variables@[v as int] { self.positive@[v as int]@ } else { self.negative@[v as int]@ };
        let len = if self.variables[v] { self.positive[v].len() } else { self.negative[v].len() };
        let mut sad: usize = 0;
        let mut k: usize = 0;
        while k < len
            invariant
                self.wf(),
                v < self.variables@.len(),
                occ == (if self.variables@[v as int] { self.positive@[v as int]@ } else { self.negative@[v as int]@ }),
                len == occ.len(),
                k <= len,
                sad as nat == ones(occ.subrange(0, k as int), self.satisfied@),
                sad <= k,
            decreases len - k,
        {
            let c = if self.variables[v] { self.positive[v][k] } else { self.negative[v][k] };
            assert(occ[k as int] == c);
            assert((c as int) < self.cls().len());
            assert(occ.subrange(0, k as int + 1).drop_last() =~= occ.subrange(0, k as int));
            if self.satisfied[c] == 1 {
                sad += 1;
            }
            k += 1;
        }
        assert(occ.subrange(0, len as int) =~= occ);
        sad
    }

    /// The least break count over the literals of clause `ci`, and the
    /// variables that reach it, in clause order.
    pub fn least_breaking(&self, ci: usize) -> (r: (usize, Vec<usize>))
        requires
            self.wf(),
            ci < self.cls().len(),
        ensures
            forall|t: int| 0 <= t < self.cls()[ci as int].len() ==> r.0 <= self.break_of(lit_var(#[trigger] self.cls()[ci as int][t])),
            exists|t: int| 0 <= t < self.cls()[ci as int].len() && r.0 == self.break_of(lit_var(#[trigger] self.cls()[ci as int][t])),
            r.1@ == self.ties(self.cls()[ci as int], r.0 as nat),
            r.1@.len() >= 1,
    {
        let c = &self.clauses[ci];
        let ghost cs = c@;
        let ghost n = self.variables@.len();
        assert(self.cls()[ci as int] == cs);
        assert(cs.len() >= 1);
        let mut least: usize = 0;
        let mut cands: Vec<usize> = Vec::new();
        let mut j: usize = 0;
        while j < c.len()
            invariant
                self.wf(),
                cs == c@,
                n == self.variables@.len(),
                ci < self.cls().len(),
                cs == self.cls()[ci as int],
                j <= cs.len(),
                j > 0 ==> forall|t: int| 0 <= t < j ==> least <= self.break_of(lit_var(#[trigger] cs[t])),
                j > 0 ==> exists|t: int| 0 <= t < j && least == self.break_of(lit_var(#[trigger] cs[t])),
                j > 0 ==> cands@ == self.ties(cs.subrange(0, j as int), least as nat),
                j > 0 ==> cands@.len() >= 1,
            decreases cs.len() - j,
        {
            let l = c[j];
            assert(lit_ok(self.cls()[ci as int][j as int], n as nat));
            let x = var_of(l);
            let sad = self.break_count(x);
            let ghost pre = cs.subrange(0, j as int);
            let ghost post = cs.subrange(0, j as int + 1);
            proof {
                assert(post.drop_last() =~= pre);
                assert(post.last() == l);
            }
            if j == 0 || sad < least {
                proof {
                    assert forall|t: int| 0 <= t < pre.len() implies self.break_of(lit_var(#[trigger] pre[t])) != sad as nat by {
                        assert(pre[t] == cs[t]);
                    }
                    lemma_ties_none(self, pre, sad as nat);
                }
                least = sad;
                cands = Vec::new();
                cands.push(x);
                proof {
                    assert(cands@ =~= Seq::<usize>::empty().push(x));
                }
            } else if sad == least {
                cands.push(x);
            } else {
            }
            proof {
                assert(cs[j as int] == l);
            }
            j += 1;
        }
        assert(cs.subrange(0, j as int) =~= cs);
        (least, cands)
    }

    /// Chooses the variable to flip in violated clause `ci`: a free flip
    /// (break count zero) when there is one; otherwise, by a fair coin, the
    /// variable of a random literal of the clause or one of least break count.
    pub fn pick_variable(&self, ci: usize, rng: &mut StdRng) -> (v: usize)
        requires
            self.wf(),
            ci < self.cls().len(),
        ensures
            exists|t: int| 0 <= t < self.cls()[ci as int].len() && v as int == lit_var(#[trigger] self.cls()[ci as int][t]),
            (exists|t: int| 0 <= t < self.cls()[ci as int].len() && self.break_of(lit_var(#[trigger] self.cls()[ci as int][t])) == 0)
                ==> self.break_of(v as int) == 0,
    {
        let ghost cs = self.cls()[ci as int];
        let ghost n = self.variables@.len();
        proof {
            assert forall|t: int| 0 <= t < cs.len() implies 0 <= lit_var(#[trigger] cs[t]) < usize::MAX by {
                assert(lit_ok(self.cls()[ci as int][t], n as nat));
            }
        }
        let (least, cands) = self.least_breaking(ci);
        let len = cands.len();
        if least == 0 || !coin(rng) {
            let k = if least == 0 && len == 1 { 0 } else { below(rng, len) };
            proof {
                lemma_ties_vars(self, cs, least as nat, k as int);
            }
            cands[k]
        } else {
            let c = &self.clauses[ci];
            assert(c@ == cs);
            let t = below(rng, c.len());
            assert(lit_ok(self.cls()[ci as int][t as int], n as nat));
            var_of(c[t])
        }
    }
}

impl SearchState {
    /// Runs the local search for at most `budget` flips, and stops as soon as
    /// the residual set is empty. Returns the number of flips made; fewer than
    /// `budget` means that every clause holds. A variable that no clause
    /// mentions keeps its value.
    pub fn run(&mut self, budget: usize, rng: &mut StdRng) -> (flips: usize)
        requires
            old(self).wf(),
        ensures
            final(self).wf(),
            final(self).clauses == old(self).clauses,
            final(self).variables@.len() == old(self).variables@.len(),
            forall|v: int| 0 <= v < old(self).variables@.len() && !mentioned(old(self).cls(), v) ==>
                #[trigger] final(self).variables@[v] == old(self).variables@[v],
            flips <= budget,
            flips < budget ==> all_hold(final(self).cls(), final(self).variables@),
            all_hold(old(self).cls(), old(self).variables@) ==> flips == 0,
    {
        let ghost a0 = self.variables@;
        let ghost cls = self.cls();
        let mut attempts: usize = 0;
        while attempts < budget
            invariant
                self.wf(),
                self.clauses == old(self).clauses,
                cls == self.cls(),
                a0 == old(self).variables@,
                self.variables@.len() == a0.len(),
                forall|v: int| 0 <= v < a0.len() && !mentioned(cls, v) ==> #[trigger] self.variables@[v] == a0[v],
                attempts <= budget,
                attempts == 0 ==> self.variables@ == a0,
                all_hold(cls, a0) ==> attempts == 0,
            decreases budget - attempts,
        {
            proof {
                if attempts == 0 && all_hold(cls, a0) {
                    lemma_none_violated(self);
                }
            }
            if self.residual.is_empty() {
                proof {
                    lemma_all_hold(self);
                }
                return attempts;
            }
            let ci = self.residual.any();
            let v = self.pick_variable(ci, rng);
            let ghost before = self.variables@;
            proof {
                let t = choose|t: int| 0 <= t < cls[ci as int].len() && v as int == lit_var(#[trigger] cls[ci as int][t]);
                assert(lit_ok(cls[ci as int][t], a0.len() as nat));
                assert(mentioned(cls, v as int));
            }
            self.flip(v);
            proof {
                assert(self.cls() == cls);
                assert forall|w: int| 0 <= w < a0.len() && !mentioned(cls, w) implies #[trigger] self.variables@[w] == a0[w] by {
                    assert(w != v);
                    assert(self.variables@[w] == before[w]);
                }
            }
            attempts += 1;
        }
        attempts
    }
}

proof fn lemma_none_violated(st: &SearchState)
    requires
        st.wf(),
        all_hold(st.cls(), st.variables@),
    ensures
        st.residual@ == Set::<usize>::empty(),
{
    assert forall|c: usize| !st.residual@.contains(c) by {
        if st.residual@.contains(c) {
            let k = choose|k: int| 0 <= k < st.residual.items@.len() && st.residual.items@[k] == c;
            assert((c as int) < st.cls().len());
            assert(clause_holds(st.cls()[c as int], st.variables@));
            lemma_count_bounds(st.cls()[c as int], st.variables@);
            assert(st.satisfied@[c as int] as nat == count_true(st.cls()[c as int], st.variables@));
        }
    }
    assert(st.residual@ =~= Set::<usize>::empty());
}

proof fn lemma_all_hold(st: &SearchState)
    requires
        st.wf(),
        st.residual@ == Set::<usize>::empty(),
        st.clauses@.len() <= usize::MAX,
    ensures
        all_hold(st.cls(), st.variables@),
{
    assert forall|c: int| 0 <= c < st.cls().len() implies clause_holds(#[trigger] st.cls()[c], st.variables@) by {
        let cu = c as usize;
        assert(st.satisfied@.len() == st.clauses@.len());
        assert(!st.residual@.contains(cu));
        assert(st.satisfied@[cu as int] != 0);
        assert(st.satisfied@[c] as nat == count_true(st.cls()[c], st.variables@));
        lemma_count_bounds(st.cls()[c], st.variables@);
    }
}

} // verus!
