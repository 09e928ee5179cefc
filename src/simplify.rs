//! Unit propagation with removal of tautologies and repeated literals, run to a
//! fixpoint.
use vstd::prelude::*;
use crate::formula::{agrees, all_hold, clauses_ok, clause_holds, lit_holds, lit_ok, lit_var, occurs_from, var_of};

verus! {

/// The literals of rows of a clause store, as sequences.
pub open spec fn rows(v: Seq<Vec<i32>>) -> Seq<Seq<i32>> {
    Seq::new(v.len(), |i: int| v[i]@)
}

/// Whether the pinned value of the literal's variable makes it true.
pub open spec fn forced_holds(l: i32, forced: Seq<Option<bool>>) -> bool {
    forced[lit_var(l)] == Some(l > 0)
}

/// A clause that a pass leaves as it is: no pinned variable, no repeated
/// literal, no literal beside its complement.
pub open spec fn clean_clause(c: Seq<i32>, forced: Seq<Option<bool>>) -> bool {
    &&& forall|j: int| 0 <= j < c.len() ==> (#[trigger] forced[lit_var(c[j])]).is_none()
    &&& forall|i: int, j: int| 0 <= i < j < c.len() ==> #[trigger] c[i] != #[trigger] c[j] && c[i] as int != -(c[j] as int)
}

/// The clause store is at the fixpoint: every clause is clean and has two
/// literals or more.
pub open spec fn reduced(cls: Seq<Seq<i32>>, forced: Seq<Option<bool>>) -> bool {
    forall|i: int| 0 <= i < cls.len() ==> (#[trigger] cls[i]).len() >= 2 && clean_clause(cls[i], forced)
}

/// The literal at position `i` has its complement later in the clause.
pub open spec fn complement_after(c: Seq<i32>, i: int) -> bool {
    exists|j: int| i < j < c.len() && c[j] as int == -(c[i] as int)
}

/// The literal at position `i` occurs again later in the clause.
pub open spec fn repeated_after(c: Seq<i32>, i: int) -> bool {
    exists|j: int| i < j < c.len() && c[j] == c[i]
}

/// The reduction of clause `c` under the pins after its first `i` literals,
/// scanned left to right: `None` once a literal holds by its pin or has its
/// complement later; a literal whose variable is pinned (so it is false), or
/// that occurs again later, is dropped; any other literal is kept.
pub open spec fn reduce_upto(c: Seq<i32>, forced: Seq<Option<bool>>, i: nat) -> Option<Seq<i32>>
    decreases i,
{
    if i == 0 {
        Some(Seq::empty())
    } else {
        match reduce_upto(c, forced, (i - 1) as nat) {
            None => None,
            Some(k) => {
                let l = c[i - 1];
                if forced_holds(l, forced) || complement_after(c, i - 1) {
                    None
                } else if forced[lit_var(l)] is Some || repeated_after(c, i - 1) {
                    Some(k)
                } else {
                    Some(k.push(l))
                }
            },
        }
    }
}

/// The reduction of a whole clause under the pins.
pub open spec fn reduce_spec(c: Seq<i32>, forced: Seq<Option<bool>>) -> Option<Seq<i32>> {
    reduce_upto(c, forced, c.len())
}

proof fn lemma_reduce_none_stays(c: Seq<i32>, forced: Seq<Option<bool>>, i: nat, j: nat)
    requires
        i <= j,
        reduce_upto(c, forced, i) is None,
    ensures
        reduce_upto(c, forced, j) is None,
    decreases j - i,
{
    if i < j {
        lemma_reduce_none_stays(c, forced, i, (j - 1) as nat);
    }
}

/// One pass over the first `i` clauses of `cs`, starting from the pins `f0`:
/// the clauses kept so far, the pins so far, and whether nothing changed.
/// A clause that reduces to nothing, or to a unit against its pin, ends the pass
/// with `None`; a unit pins its variable; a clause of two literals or more is
/// kept as reduced.
pub open spec fn pass_upto(cs: Seq<Seq<i32>>, f0: Seq<Option<bool>>, i: nat) -> Option<(Seq<Seq<i32>>, Seq<Option<bool>>, bool)>
    decreases i,
{
    if i == 0 {
        Some((Seq::empty(), f0, true))
    } else {
        match pass_upto(cs, f0, (i - 1) as nat) {
            None => None,
            Some((next, f, done)) => match reduce_spec(cs[i - 1], f) {
                None => Some((next, f, false)),
                Some(k) => if k.len() == 0 {
                    None
                } else if k.len() == 1 {
                    if f[lit_var(k[0])] == Some(!(k[0] > 0)) {
                        None
                    } else {
                        Some((next, f.update(lit_var(k[0]), Some(k[0] > 0)), false))
                    }
                } else {
                    Some((next.push(k), f, done && k.len() == cs[i - 1].len()))
                },
            },
        }
    }
}

/// One whole pass over `cs`.
pub open spec fn pass_spec(cs: Seq<Seq<i32>>, f0: Seq<Option<bool>>) -> Option<(Seq<Seq<i32>>, Seq<Option<bool>>, bool)> {
    pass_upto(cs, f0, cs.len())
}

/// Passes run from `(cs, f)` with at most `fuel` of them: the first store that a
/// pass leaves unchanged, with its pins, or `None` on a contradiction.
pub open spec fn fixpoint_fuel(cs: Seq<Seq<i32>>, f: Seq<Option<bool>>, fuel: nat) -> Option<(Seq<Seq<i32>>, Seq<Option<bool>>)>
    decreases fuel,
{
    if fuel == 0 {
        None
    } else {
        match pass_spec(cs, f) {
            None => None,
            Some((next, f1, done)) => if done { Some((cs, f)) } else { fixpoint_fuel(next, f1, (fuel - 1) as nat) },
        }
    }
}

/// The preprocessing of `cs` from the pins `f`: passes until one changes
/// nothing. Every pass that changes something removes a literal, so
/// `total_lits(cs) + 1` passes are enough.
pub open spec fn fixpoint(cs: Seq<Seq<i32>>, f: Seq<Option<bool>>) -> Option<(Seq<Seq<i32>>, Seq<Option<bool>>)> {
    fixpoint_fuel(cs, f, total_lits(cs) + 1)
}

/// No variable pinned, for `n` variables.
pub open spec fn no_pins(n: nat) -> Seq<Option<bool>> {
    Seq::new(n, |v: int| None::<bool>)
}

proof fn lemma_pass_none_stays(cs: Seq<Seq<i32>>, f0: Seq<Option<bool>>, i: nat, j: nat)
    requires
        i <= j,
        pass_upto(cs, f0, i) is None,
    ensures
        pass_upto(cs, f0, j) is None,
    decreases j - i,
{
    if i < j {
        lemma_pass_none_stays(cs, f0, i, (j - 1) as nat);
    }
}

/// Every unit clause of `cls` is pinned by `f` to the value that makes it true.
pub open spec fn units_pinned(cls: Seq<Seq<i32>>, f: Seq<Option<bool>>) -> bool {
    forall|i: int| 0 <= i < cls.len() && (#[trigger] cls[i]).len() == 1 ==> forced_holds(cls[i][0], f)
}

/// `f` keeps every pin of `f0`.
pub open spec fn extends(f: Seq<Option<bool>>, f0: Seq<Option<bool>>) -> bool {
    &&& f.len() == f0.len()
    &&& forall|v: int| 0 <= v < f0.len() && (#[trigger] f0[v]).is_some() ==> f[v] == f0[v]
}

/// Under the pins `f0` the store `c0` has the same models as `c1` under `f1`.
pub open spec fn equivalent(c0: Seq<Seq<i32>>, f0: Seq<Option<bool>>, c1: Seq<Seq<i32>>, f1: Seq<Option<bool>>) -> bool {
    forall|a: Seq<bool>|
        #![trigger agrees(f0, a)]
        #![trigger agrees(f1, a)]
        (agrees(f0, a) && all_hold(c0, a)) <==> (agrees(f1, a) && all_hold(c1, a))
}

/// The number of literals in a clause store.
pub open spec fn total_lits(s: Seq<Seq<i32>>) -> nat
    decreases s.len(),
{
    if s.len() == 0 { 0 } else { total_lits(s.drop_last()) + s.last().len() }
}

/// A literal that holds under an assignment agreeing with the pins is kept,
/// since the last of its copies in the clause survives the reduction.
proof fn lemma_kept(c: Seq<i32>, k: Seq<i32>, forced: Seq<Option<bool>>, a: Seq<bool>, j: int)
    requires
        0 <= j < c.len(),
        lit_holds(c[j], a),
        agrees(forced, a),
        forall|i: int| 0 <= i < c.len() ==> 0 <= #[trigger] lit_var(c[i]) < forced.len(),
        forall|i: int| 0 <= i < c.len() ==> !forced_holds(#[trigger] c[i], forced),
        forall|i: int| 0 <= i < c.len() && (#[trigger] forced[lit_var(c[i])]).is_none() ==>
            k.contains(c[i]) || exists|i2: int| i < i2 < c.len() && c[i2] == c[i],
    ensures
        k.contains(c[j]),
    decreases c.len() - j,
{
    let x = lit_var(c[j]);
    if forced[x].is_some() {
        assert(a[x] == forced[x].unwrap());
        assert(forced_holds(c[j], forced));
    }
    assert(forced[lit_var(c[j])].is_none());
    if !k.contains(c[j]) {
        let i2 = choose|i2: int| j < i2 < c.len() && c[i2] == c[j];
        lemma_kept(c, k, forced, a, i2);
    }
}

/// Reduces one clause under the pins: `None` when the clause already holds (a
/// pinned literal, or a literal beside its complement), else the literals that
/// stay.
pub fn reduce_clause(c: &Vec<i32>, forced: &Vec<Option<bool>>) -> (r: Option<Vec<i32>>)
    requires
        forall|j: int| 0 <= j < c@.len() ==> lit_ok(#[trigger] c@[j], forced@.len() as nat),
    ensures
        r is None ==> c@.len() > 0,
        r is None ==> (exists|j: int| 0 <= j < c@.len() && forced_holds(#[trigger] c@[j], forced@))
            || (exists|j: int, j2: int| 0 <= j < j2 < c@.len() && #[trigger] c@[j] as int == -(#[trigger] c@[j2] as int)),
        r is None ==> forall|a: Seq<bool>| #[trigger] agrees(forced@, a) ==> clause_holds(c@, a),
        r matches Some(k) ==> {
            &&& k@.len() <= c@.len()
            &&& forall|t: int| 0 <= t < k@.len() ==> c@.contains(#[trigger] k@[t])
            &&& forall|t: int| 0 <= t < k@.len() ==> (#[trigger] forced@[lit_var(k@[t])]).is_none()
            &&& forall|a: Seq<bool>| #[trigger] agrees(forced@, a) ==> (clause_holds(c@, a) <==> clause_holds(k@, a))
            &&& k@.len() == c@.len() ==> k@ == c@ && clean_clause(c@, forced@)
        },
        clean_clause(c@, forced@) ==> (r matches Some(k) && k@ == c@),
        (r is None) == (reduce_spec(c@, forced@) is None),
        r matches Some(k) ==> reduce_spec(c@, forced@) == Some(k@),
{
    let ghost n = forced@.len();
    let mut k: Vec<i32> = Vec::with_capacity(c.len());
    let mut i: usize = 0;
    while i < c.len()
        invariant
            forall|j: int| 0 <= j < c@.len() ==> lit_ok(#[trigger] c@[j], n as nat),
            n == forced@.len(),
            i <= c@.len(),
            reduce_upto(c@, forced@, i as nat) == Some(k@),
            k@.len() <= i,
            k@.len() == i ==> k@ == c@.subrange(0, i as int),
            forall|t: int| 0 <= t < k@.len() ==> c@.contains(#[trigger] k@[t]),
            forall|t: int| 0 <= t < k@.len() ==> (#[trigger] forced@[lit_var(k@[t])]).is_none(),
            forall|j: int| 0 <= j < i ==> !forced_holds(#[trigger] c@[j], forced@),
            forall|j: int, j2: int| 0 <= j < i && j < j2 < c@.len() ==> #[trigger] c@[j] as int != -(#[trigger] c@[j2] as int),
            forall|j: int| 0 <= j < i && (#[trigger] forced@[lit_var(c@[j])]).is_none() ==>
                k@.contains(c@[j]) || exists|j2: int| j < j2 < c@.len() && c@[j2] == c@[j],
            clean_clause(c@, forced@) ==> k@.len() == i,
            k@.len() == i ==> clean_clause(c@.subrange(0, i as int), forced@)
                && forall|j: int, j2: int| 0 <= j < i && j < j2 < c@.len() ==> #[trigger] c@[j] != #[trigger] c@[j2],
        decreases c@.len() - i,
    {
        let l = c[i];
        assert(lit_ok(c@[i as int], n as nat));
        let x = var_of(l);
        let pinned = forced[x];
        let satisfied = match pinned {
            Some(b) => b == (l > 0),
            None => false,
        };
        // `i32::MIN` has no complement among `i32` values.
        if satisfied || (l != i32::MIN && occurs_from(c, i + 1, -l)) {
            proof {
                if satisfied {
                    assert(forced_holds(c@[i as int], forced@));
                } else {
                    let j2 = choose|j2: int| i + 1 <= j2 < c@.len() && c@[j2] == -l;
                    assert(c@[i as int] as int == -(c@[j2] as int));
                    assert(complement_after(c@, i as int));
                }
                assert(reduce_upto(c@, forced@, (i + 1) as nat) is None);
                lemma_reduce_none_stays(c@, forced@, (i + 1) as nat, c@.len());
                assert forall|a: Seq<bool>| #[trigger] agrees(forced@, a) implies clause_holds(c@, a) by {
                    if satisfied {
                        assert(a[x as int] == pinned.unwrap());
                        assert(lit_holds(c@[i as int], a));
                    } else {
                        let j2 = choose|j2: int| i + 1 <= j2 < c@.len() && c@[j2] == -l;
                        if !lit_holds(c@[i as int], a) {
                            assert(lit_holds(c@[j2], a));
                        }
                    }
                }
            }
            return None;
        }
        proof {
            if complement_after(c@, i as int) {
                let j2 = choose|j2: int| i < j2 < c@.len() && c@[j2] as int == -(c@[i as int] as int);
                assert(l != i32::MIN);
                assert(c@[j2] == -l);
            }
        }
        let dup = occurs_from(c, i + 1, l);
        if pinned.is_some() || dup {
            proof {
                if pinned.is_none() {
                    let j2 = choose|j2: int| i + 1 <= j2 < c@.len() && c@[j2] == l;
                    assert(i < j2 < c@.len() && c@[j2] == c@[i as int]);
                }
            }
        } else {
            let ghost old_k = k@;
            proof {
                assert(c@.contains(c@[i as int]));
            }
            k.push(l);
            proof {
                assert(k@[k@.len() - 1] == l);
                assert(k@.contains(c@[i as int]));
                assert forall|j: int| 0 <= j < i + 1 && (#[trigger] forced@[lit_var(c@[j])]).is_none() implies
                    k@.contains(c@[j]) || exists|j2: int| j < j2 < c@.len() && c@[j2] == c@[j] by {
                    if j < i && !(exists|j2: int| j < j2 < c@.len() && c@[j2] == c@[j]) {
                        assert(old_k.contains(c@[j]));
                        let t = choose|t: int| 0 <= t < old_k.len() && old_k[t] == c@[j];
                        assert(k@[t] == c@[j]);
                    }
                }
            }
        }
        i += 1;
        proof {
            if k@.len() == i {
                assert(c@.subrange(0, i as int).drop_last() =~= c@.subrange(0, i as int - 1));
                assert(k@ =~= c@.subrange(0, i as int));
            }
        }
    }
    proof {
        assert forall|a: Seq<bool>| #[trigger] agrees(forced@, a) implies (clause_holds(c@, a) <==> clause_holds(k@, a)) by {
            if clause_holds(c@, a) {
                let j = choose|j: int| 0 <= j < c@.len() && lit_holds(#[trigger] c@[j], a);
                assert forall|i: int| 0 <= i < c@.len() implies 0 <= #[trigger] lit_var(c@[i]) < forced@.len() by {
                    assert(lit_ok(c@[i], n as nat));
                }
                lemma_kept(c@, k@, forced@, a, j);
                let t = choose|t: int| 0 <= t < k@.len() && k@[t] == c@[j];
                assert(lit_holds(k@[t], a));
            }
            if clause_holds(k@, a) {
                let t = choose|t: int| 0 <= t < k@.len() && lit_holds(#[trigger] k@[t], a);
                assert(c@.contains(k@[t]));
                let j = choose|j: int| 0 <= j < c@.len() && c@[j] == k@[t];
                assert(lit_holds(c@[j], a));
            }
        }
        if k@.len() == c@.len() {
            assert(c@.subrange(0, c@.len() as int) =~= c@);
        }
    }
    Some(k)
}

proof fn lemma_total_step(s: Seq<Seq<i32>>, i: int)
    requires
        0 <= i < s.len(),
    ensures
        total_lits(s.subrange(0, i + 1)) == total_lits(s.subrange(0, i)) + s[i].len(),
{
    assert(s.subrange(0, i + 1).drop_last() =~= s.subrange(0, i));
}

proof fn lemma_total_push(s: Seq<Seq<i32>>, k: Seq<i32>)
    ensures
        total_lits(s.push(k)) == total_lits(s) + k.len(),
{
    assert(s.push(k).drop_last() =~= s);
}

proof fn lemma_hold_push(s: Seq<Seq<i32>>, k: Seq<i32>, a: Seq<bool>)
    ensures
        all_hold(s.push(k), a) <==> all_hold(s, a) && clause_holds(k, a),
{
    if all_hold(s.push(k), a) {
        assert(clause_holds(s.push(k)[s.len() as int], a));
        assert forall|i: int| 0 <= i < s.len() implies clause_holds(#[trigger] s[i], a) by {
            assert(clause_holds(s.push(k)[i], a));
        }
    }
    if all_hold(s, a) && clause_holds(k, a) {
        assert forall|i: int| 0 <= i < s.push(k).len() implies clause_holds(#[trigger] s.push(k)[i], a) by {
            if i < s.len() {
                assert(clause_holds(s[i], a));
            }
        }
    }
}

proof fn lemma_hold_rest(s: Seq<Seq<i32>>, i: int, a: Seq<bool>)
    requires
        0 <= i < s.len(),
    ensures
        all_hold(s.subrange(i, s.len() as int), a) <==> clause_holds(s[i], a) && all_hold(s.subrange(i + 1, s.len() as int), a),
{
    let r0 = s.subrange(i, s.len() as int);
    let r1 = s.subrange(i + 1, s.len() as int);
    if all_hold(r0, a) {
        assert(clause_holds(r0[0], a));
        assert forall|j: int| 0 <= j < r1.len() implies clause_holds(#[trigger] r1[j], a) by {
            assert(clause_holds(r0[j + 1], a));
        }
    }
    if clause_holds(s[i], a) && all_hold(r1, a) {
        assert forall|j: int| 0 <= j < r0.len() implies clause_holds(#[trigger] r0[j], a) by {
            if j > 0 {
                assert(clause_holds(r1[j - 1], a));
            }
        }
    }
}

#[verifier::opaque]
spec fn pass_state(cs: Seq<Seq<i32>>, f0: Seq<Option<bool>>, f: Seq<Option<bool>>, next: Seq<Seq<i32>>, i: int) -> bool {
    forall|a: Seq<bool>| (agrees(f0, a) && all_hold(cs, a)) <==> (#[trigger] agrees(f, a) && all_hold(next, a) && all_hold(cs.subrange(i, cs.len() as int), a))
}

proof fn lemma_pass_state_at(cs: Seq<Seq<i32>>, f0: Seq<Option<bool>>, f: Seq<Option<bool>>, next: Seq<Seq<i32>>, i: int, a: Seq<bool>)
    requires
        pass_state(cs, f0, f, next, i),
    ensures
        (agrees(f0, a) && all_hold(cs, a)) <==> (agrees(f, a) && all_hold(next, a) && all_hold(cs.subrange(i, cs.len() as int), a)),
{
    reveal(pass_state);
}

/// One pass over the store. `None` when a clause reduces to nothing or a unit
/// contradicts a pin; otherwise the clauses that stay, and whether the pass
/// changed nothing.
pub fn simplify_pass(cur: &Vec<Vec<i32>>, forced: &mut Vec<Option<bool>>) -> (r: Option<(Vec<Vec<i32>>, bool)>)
    requires
        clauses_ok(rows(cur@), old(forced)@.len() as nat),
    ensures
        extends(final(forced)@, old(forced)@),
        r is None ==> forall|a: Seq<bool>| #[trigger] agrees(old(forced)@, a) ==> !all_hold(rows(cur@), a),
        r matches Some((next, done)) ==> {
            &&& clauses_ok(rows(next@), old(forced)@.len() as nat)
            &&& equivalent(rows(cur@), old(forced)@, rows(next@), final(forced)@)
            &&& done ==> rows(next@) == rows(cur@) && final(forced)@ == old(forced)@ && reduced(rows(cur@), old(forced)@)
            &&& !done ==> total_lits(rows(next@)) < total_lits(rows(cur@))
            &&& units_pinned(rows(cur@), final(forced)@)
        },
        reduced(rows(cur@), old(forced)@) ==> (r matches Some((_, done)) && done),
        (r is None) == (pass_spec(rows(cur@), old(forced)@) is None),
        r matches Some((next, done)) ==> pass_spec(rows(cur@), old(forced)@) == Some((rows(next@), final(forced)@, done)),
{
    let ghost f0 = forced@;
    let ghost n = f0.len() as nat;
    let ghost cs = rows(cur@);
    let mut next: Vec<Vec<i32>> = Vec::with_capacity(cur.len());
    let mut done = true;
    let mut i: usize = 0;
    proof {
        reveal(pass_state);
        assert(cs.subrange(0, cs.len() as int) =~= cs);
        assert(rows(next@) =~= Seq::<Seq<i32>>::empty());
        assert(cs.subrange(0, 0) =~= Seq::<Seq<i32>>::empty());
        assert forall|a: Seq<bool>| (agrees(f0, a) && all_hold(cs, a)) <==> (#[trigger] agrees(forced@, a) && all_hold(rows(next@), a) && all_hold(cs.subrange(0, cs.len() as int), a)) by {
            assert(all_hold(rows(next@), a));
        }
    }
    while i < cur.len()
        invariant
            cs == rows(cur@),
            f0 == old(forced)@,
            clauses_ok(cs, n),
            n == f0.len(),
            i <= cs.len(),
            extends(forced@, f0),
            clauses_ok(rows(next@), n),
            pass_state(cs, f0, forced@, rows(next@), i as int),
            total_lits(rows(next@)) + (if done { 0nat } else { 1nat }) <= total_lits(cs.subrange(0, i as int)),
            done ==> rows(next@) == cs.subrange(0, i as int) && forced@ == f0 && reduced(cs.subrange(0, i as int), f0),
            reduced(cs, f0) ==> done,
            pass_upto(cs, f0, i as nat) == Some((rows(next@), forced@, done)),
            forall|ii: int| 0 <= ii < i && (#[trigger] cs[ii]).len() == 1 ==> forced_holds(cs[ii][0], forced@),
        decreases cs.len() - i,
    {
        let c = &cur[i];
        let ghost fb = forced@;
        proof {
            reveal(pass_state);
        }
        assert(cs[i as int] == c@);
        assert forall|j: int| 0 <= j < c@.len() implies lit_ok(#[trigger] c@[j], forced@.len() as nat) by {
            assert(lit_ok(cs[i as int][j], n));
        }
        proof {
            lemma_total_step(cs, i as int);
            assert forall|a: Seq<bool>| agrees(f0, a) && all_hold(cs, a) <==> (#[trigger] agrees(fb, a) && all_hold(rows(next@), a) && all_hold(cs.subrange(i as int, cs.len() as int), a)) by {
                lemma_pass_state_at(cs, f0, fb, rows(next@), i as int, a);
            }
            if reduced(cs, f0) {
                assert(cs[i as int].len() >= 2 && clean_clause(cs[i as int], f0));
            }
        }
        let reduced_clause = reduce_clause(c, forced);
        assert(forced@ == fb);
        match reduced_clause {
            None => {
                done = false;
                proof {
                    if c@.len() == 1 {
                        assert(forced_holds(c@[0], forced@));
                    }
                    assert forall|a: Seq<bool>| agrees(f0, a) && all_hold(cs, a) <==> (#[trigger] agrees(forced@, a) && all_hold(rows(next@), a) && all_hold(cs.subrange(i + 1, cs.len() as int), a)) by {
                        lemma_hold_rest(cs, i as int, a);
                        assert(cs[i as int] == c@);
                        assert((agrees(f0, a) && all_hold(cs, a)) <==> (agrees(fb, a) && all_hold(rows(next@), a) && all_hold(cs.subrange(i as int, cs.len() as int), a)));
                        if agrees(fb, a) {
                            assert(clause_holds(c@, a));
                        }
                    }
                }
            }
            Some(k) => {
                let ghost kv = k@;
                if k.len() == 0 {
                    proof {
                        assert forall|a: Seq<bool>| #[trigger] agrees(f0, a) implies !all_hold(cs, a) by {
                            lemma_hold_rest(cs, i as int, a);
                            if all_hold(cs, a) {
                                assert(agrees(forced@, a));
                                assert(all_hold(cs.subrange(i as int, cs.len() as int), a));
                                assert(clause_holds(c@, a));
                                assert(clause_holds(kv, a));
                                let t = choose|t: int| 0 <= t < kv.len() && lit_holds(#[trigger] kv[t], a);
                            }
                        }
                        assert(pass_upto(cs, f0, (i + 1) as nat) is None);
                        lemma_pass_none_stays(cs, f0, (i + 1) as nat, cs.len());
                    }
                    return None;
                } else if k.len() == 1 {
                    let l = k[0];
                    assert(c@.contains(kv[0]));
                    let ghost j = choose|j: int| 0 <= j < c@.len() && c@[j] == kv[0];
                    assert(lit_ok(c@[j], n));
                    let x = var_of(l);
                    let want = l > 0;
                    match forced[x] {
                        Some(b) => {
                            if b != want {
                                proof {
                                    assert(pass_upto(cs, f0, (i + 1) as nat) is None);
                                    lemma_pass_none_stays(cs, f0, (i + 1) as nat, cs.len());
                                }
                                return None;
                            }
                        }
                        None => {}
                    }
                    forced.set(x, Some(want));
                    done = false;
                    proof {
                        assert forall|ii: int| 0 <= ii < i + 1 && (#[trigger] cs[ii]).len() == 1 implies forced_holds(cs[ii][0], forced@) by {
                            if ii < i {
                                assert(forced_holds(cs[ii][0], fb));
                                assert(lit_ok(cs[ii][0], n));
                            } else {
                                assert(cs[ii] == c@);
                                assert(c@.contains(kv[0]));
                                assert(c@[0] == kv[0]);
                            }
                        }
                        assert forall|a: Seq<bool>| agrees(f0, a) && all_hold(cs, a) <==> (#[trigger] agrees(forced@, a) && all_hold(rows(next@), a) && all_hold(cs.subrange(i + 1, cs.len() as int), a)) by {
                            lemma_hold_rest(cs, i as int, a);
                            assert(cs[i as int] == c@);
                            assert((agrees(f0, a) && all_hold(cs, a)) <==> (agrees(fb, a) && all_hold(rows(next@), a) && all_hold(cs.subrange(i as int, cs.len() as int), a)));
                            if agrees(fb, a) {
                                assert(clause_holds(c@, a) <==> clause_holds(kv, a));
                            }
                            if agrees(forced@, a) {
                                assert(agrees(fb, a)) by {
                                    assert forall|v: int| 0 <= v < fb.len() && (#[trigger] fb[v]).is_some() implies a[v] == fb[v].unwrap() by {
                                        assert(forced@[v].is_some());
                                    }
                                }
                                assert(forced@[x as int] == Some(want));
                                assert(lit_holds(kv[0], a));
                                assert(clause_holds(kv, a));
                            }
                            if agrees(fb, a) && clause_holds(kv, a) {
                                let t = choose|t: int| 0 <= t < kv.len() && lit_holds(#[trigger] kv[t], a);
                                assert(t == 0);
                                assert(agrees(forced@, a)) by {
                                    assert forall|v: int| 0 <= v < forced@.len() && (#[trigger] forced@[v]).is_some() implies a[v] == forced@[v].unwrap() by {
                                        if v != x {
                                            assert(fb[v] == forced@[v]);
                                        }
                                    }
                                }
                            }
                        }
                    }
                } else {
                    if k.len() < c.len() {
                        done = false;
                    }
                    let ghost old_next = rows(next@);
                    next.push(k);
                    proof {
                        assert(rows(next@) =~= old_next.push(kv));
                        lemma_total_push(old_next, kv);
                        assert forall|a: Seq<bool>| agrees(f0, a) && all_hold(cs, a) <==> (#[trigger] agrees(forced@, a) && all_hold(rows(next@), a) && all_hold(cs.subrange(i + 1, cs.len() as int), a)) by {
                            lemma_hold_rest(cs, i as int, a);
                            lemma_hold_push(old_next, kv, a);
                            if agrees(forced@, a) {
                                assert(clause_holds(c@, a) <==> clause_holds(kv, a));
                            }
                            assert(agrees(fb, a) == agrees(forced@, a));
                            assert(cs[i as int] == c@);
                        }
                        assert forall|p: int, q: int| 0 <= p < rows(next@).len() && 0 <= q < rows(next@)[p].len() implies lit_ok(#[trigger] rows(next@)[p][q], n) by {
                            if p == old_next.len() {
                                assert(c@.contains(kv[q]));
                                let j = choose|j: int| 0 <= j < c@.len() && c@[j] == kv[q];
                                assert(lit_ok(c@[j], n));
                            } else {
                                assert(rows(next@)[p] == old_next[p]);
                            }
                        }
                        if done {
                            assert(cs.subrange(0, i + 1) =~= cs.subrange(0, i as int).push(c@));
                        }
                    }
                }
            }
        }
        proof {
            reveal(pass_state);
        }
        i += 1;
    }
    proof {
        reveal(pass_state);
        assert(cs.subrange(cs.len() as int, cs.len() as int) =~= Seq::<Seq<i32>>::empty());
        assert(cs.subrange(0, cs.len() as int) =~= cs);
        assert forall|a: Seq<bool>|
            #![trigger agrees(f0, a)]
            #![trigger agrees(forced@, a)]
            (agrees(f0, a) && all_hold(cs, a)) <==> (agrees(forced@, a) && all_hold(rows(next@), a)) by {
            assert(all_hold(cs.subrange(cs.len() as int, cs.len() as int), a));
        }
    }
    Some((next, done))
}

/// The result of preprocessing: the clauses that stay and the pin of each
/// variable (`Some(b)` when unit propagation fixed it to `b`).
pub struct Simplified {
    pub clauses: Vec<Vec<i32>>,
    pub forced: Vec<Option<bool>>,
}

/// `(c1, f1)` is a fixpoint reached from `(c0, f0)`: it keeps the pins of `f0`,
/// every clause is clean with two literals or more, and the models agree.
pub open spec fn simplified_from(c0: Seq<Seq<i32>>, f0: Seq<Option<bool>>, c1: Seq<Seq<i32>>, f1: Seq<Option<bool>>) -> bool {
    &&& extends(f1, f0)
    &&& clauses_ok(c1, f0.len() as nat)
    &&& reduced(c1, f1)
    &&& equivalent(c0, f0, c1, f1)
}

/// What preprocessing owes on `(c0, f0)`: `None` only when no model agrees
/// with the pins, a fixpoint otherwise, and the input itself when it is one.
pub open spec fn simplify_spec(c0: Seq<Seq<i32>>, f0: Seq<Option<bool>>, r: Option<(Seq<Seq<i32>>, Seq<Option<bool>>)>) -> bool {
    &&& r is None ==> forall|a: Seq<bool>| #[trigger] agrees(f0, a) ==> !all_hold(c0, a)
    &&& r matches Some((c1, f1)) ==> simplified_from(c0, f0, c1, f1) && units_pinned(c0, f1)
    &&& reduced(c0, f0) ==> r == Some((c0, f0))
}

/// The mathematical value of a preprocessing result.
pub open spec fn outcome_view(r: Option<Simplified>) -> Option<(Seq<Seq<i32>>, Seq<Option<bool>>)> {
    match r {
        None => None,
        Some(s) => Some((rows(s.clauses@), s.forced@)),
    }
}

/// Runs passes until one changes nothing, starting from the pins `forced`.
pub fn propagate(clauses: Vec<Vec<i32>>, forced: Vec<Option<bool>>) -> (r: Option<Simplified>)
    requires
        clauses_ok(rows(clauses@), forced@.len() as nat),
    ensures
        simplify_spec(rows(clauses@), forced@, outcome_view(r)),
        outcome_view(r) == fixpoint(rows(clauses@), forced@),
{
    let ghost c0 = rows(clauses@);
    let ghost f0 = forced@;
    let mut cur = clauses;
    let mut pins = forced;
    let ghost mut steps: nat = 0;
    loop
        invariant
            c0 == rows(clauses@),
            f0 == forced@,
            clauses_ok(c0, f0.len() as nat),
            clauses_ok(rows(cur@), f0.len() as nat),
            extends(pins@, f0),
            equivalent(c0, f0, rows(cur@), pins@),
            reduced(c0, f0) ==> rows(cur@) == c0 && pins@ == f0,
            forall|i: int| 0 <= i < c0.len() && (#[trigger] c0[i]).len() == 1 ==>
                forced_holds(c0[i][0], pins@) || rows(cur@).contains(c0[i]),
            steps + total_lits(rows(cur@)) <= total_lits(c0),
            forall|k: nat| #[trigger] fixpoint_fuel(rows(cur@), pins@, k) == fixpoint_fuel(c0, f0, k + steps),
        decreases total_lits(rows(cur@)),
    {
        let ghost fb = pins@;
        let ghost cb = rows(cur@);
        match simplify_pass(&cur, &mut pins) {
            None => {
                proof {
                    let k = (total_lits(c0) + 1 - steps) as nat;
                    assert(fixpoint_fuel(cb, fb, k) == fixpoint_fuel(c0, f0, k + steps));
                    assert(k + steps == total_lits(c0) + 1);
                    assert(fixpoint_fuel(cb, fb, k) is None);
                    assert forall|a: Seq<bool>| #[trigger] agrees(f0, a) implies !all_hold(c0, a) by {
                        if all_hold(c0, a) {
                            assert(agrees(fb, a) && all_hold(cb, a));
                        }
                    }
                }
                return None;
            }
            Some((next, done)) => {
                proof {
                    assert forall|v: int| 0 <= v < f0.len() && (#[trigger] f0[v]).is_some() implies pins@[v] == f0[v] by {
                        assert(fb[v] == f0[v]);
                    }
                    assert forall|a: Seq<bool>|
                        #![trigger agrees(f0, a)]
                        #![trigger agrees(pins@, a)]
                        (agrees(f0, a) && all_hold(c0, a)) <==> (agrees(pins@, a) && all_hold(rows(next@), a)) by {
                        assert((agrees(f0, a) && all_hold(c0, a)) <==> (agrees(fb, a) && all_hold(cb, a)));
                        assert((agrees(fb, a) && all_hold(cb, a)) <==> (agrees(pins@, a) && all_hold(rows(next@), a)));
                    }
                }
                proof {
                    assert forall|i: int| 0 <= i < c0.len() && (#[trigger] c0[i]).len() == 1 implies
                        forced_holds(c0[i][0], pins@) by {
                        assert(clauses_ok(c0, f0.len() as nat));
                        assert(lit_ok(c0[i][0], f0.len() as nat));
                        if cb.contains(c0[i]) {
                            let t = choose|t: int| 0 <= t < cb.len() && cb[t] == c0[i];
                            assert(cb[t].len() == 1);
                        } else {
                            assert(forced_holds(c0[i][0], fb));
                        }
                    }
                }
                if done {
                    proof {
                        let k = (total_lits(c0) + 1 - steps) as nat;
                        assert(fixpoint_fuel(cb, fb, k) == fixpoint_fuel(c0, f0, k + steps));
                        assert(k + steps == total_lits(c0) + 1);
                        assert(fixpoint_fuel(cb, fb, k) == Some((cb, fb)));
                    }
                    return Some(Simplified { clauses: cur, forced: pins });
                }
                proof {
                    assert forall|k: nat| #[trigger] fixpoint_fuel(rows(next@), pins@, k) == fixpoint_fuel(c0, f0, k + (steps + 1)) by {
                        assert(fixpoint_fuel(cb, fb, k + 1) == fixpoint_fuel(c0, f0, (k + 1) + steps));
                        assert(k + 1 + steps == k + (steps + 1));
                    }
                    steps = steps + 1;
                }
                cur = next;
            }
        }
    }
}

/// Preprocesses `clauses` over `num_variables` variables, with no pin to start.
pub fn preprocess(num_variables: usize, clauses: &Vec<Vec<i32>>) -> (r: Option<Simplified>)
    requires
        clauses_ok(rows(clauses@), num_variables as nat),
    ensures
        simplify_spec(rows(clauses@), no_pins(num_variables as nat), outcome_view(r)),
        outcome_view(r) == fixpoint(rows(clauses@), no_pins(num_variables as nat)),
{
    let mut copy: Vec<Vec<i32>> = Vec::with_capacity(clauses.len());
    let mut i: usize = 0;
    while i < clauses.len()
        invariant
            i <= clauses@.len(),
            rows(copy@) == rows(clauses@).subrange(0, i as int),
        decreases clauses@.len() - i,
    {
        let row = clauses[i].clone();
        assert(row@ =~= clauses@[i as int]@);
        let ghost before = rows(copy@);
        copy.push(row);
        assert(rows(copy@) =~= before.push(row@));
        i += 1;
        assert(rows(copy@) =~= rows(clauses@).subrange(0, i as int));
    }
    assert(rows(clauses@).subrange(0, i as int) =~= rows(clauses@));
    let forced: Vec<Option<bool>> = vec![None; num_variables];
    assert(forced@ =~= Seq::new(num_variables as nat, |v: int| None::<bool>));
    propagate(copy, forced)
}

proof fn lemma_reduce_clean(c: Seq<i32>, f: Seq<Option<bool>>, i: nat)
    requires
        clean_clause(c, f),
        i <= c.len(),
    ensures
        reduce_upto(c, f, i) == Some(c.subrange(0, i as int)),
    decreases i,
{
    if i > 0 {
        lemma_reduce_clean(c, f, (i - 1) as nat);
        let l = c[i - 1];
        assert(f[lit_var(l)] is None);
        if complement_after(c, i - 1) {
            let j = choose|j: int| i - 1 < j < c.len() && #[trigger] c[j] as int == -(c[i - 1] as int);
            assert(c[i - 1] as int != -(c[j] as int));
        }
        if repeated_after(c, i - 1) {
            let j = choose|j: int| i - 1 < j < c.len() && #[trigger] c[j] == c[i - 1];
            assert(c[i - 1] != c[j]);
        }
        assert(c.subrange(0, i - 1).push(l) =~= c.subrange(0, i as int));
    }
}

proof fn lemma_pass_reduced(cs: Seq<Seq<i32>>, f: Seq<Option<bool>>, i: nat)
    requires
        reduced(cs, f),
        i <= cs.len(),
    ensures
        pass_upto(cs, f, i) == Some((cs.subrange(0, i as int), f, true)),
    decreases i,
{
    if i > 0 {
        lemma_pass_reduced(cs, f, (i - 1) as nat);
        let c = cs[i - 1];
        assert(c.len() >= 2 && clean_clause(c, f));
        lemma_reduce_clean(c, f, c.len());
        assert(c.subrange(0, c.len() as int) =~= c);
        assert(cs.subrange(0, i - 1).push(c) =~= cs.subrange(0, i as int));
    }
}

/// Preprocessing its own result again changes nothing: when preprocessing
/// `(c0, f0)` gives clauses `c1` and pins `f1`, preprocessing `c1` from the pins
/// `f1` gives `(c1, f1)` back.
pub proof fn lemma_preprocess_idempotent(c0: Seq<Seq<i32>>, f0: Seq<Option<bool>>)
    requires
        fixpoint(c0, f0) is Some,
    ensures
        fixpoint(fixpoint(c0, f0).unwrap().0, fixpoint(c0, f0).unwrap().1) == fixpoint(c0, f0),
{
    lemma_fixpoint_reduced(c0, f0, total_lits(c0) + 1);
    let (c1, f1) = fixpoint(c0, f0).unwrap();
    lemma_pass_reduced(c1, f1, c1.len());
    assert(c1.subrange(0, c1.len() as int) =~= c1);
}

proof fn lemma_fixpoint_reduced(cs: Seq<Seq<i32>>, f: Seq<Option<bool>>, fuel: nat)
    requires
        fixpoint_fuel(cs, f, fuel) is Some,
    ensures
        reduced(fixpoint_fuel(cs, f, fuel).unwrap().0, fixpoint_fuel(cs, f, fuel).unwrap().1),
    decreases fuel,
{
    let (next, f1, done) = pass_spec(cs, f).unwrap();
    if done {
        lemma_pass_done_reduced(cs, f, cs.len());
        assert(cs.subrange(0, cs.len() as int) =~= cs);
    } else {
        lemma_fixpoint_reduced(next, f1, (fuel - 1) as nat);
    }
}

/// A pass that changes nothing over the first `i` clauses saw only clean
/// clauses of two literals or more, and kept the pins.
proof fn lemma_pass_done_reduced(cs: Seq<Seq<i32>>, f0: Seq<Option<bool>>, i: nat)
    requires
        i <= cs.len(),
        pass_upto(cs, f0, i) matches Some((_, _, done)) && done,
    ensures
        pass_upto(cs, f0, i).unwrap().1 == f0,
        reduced(cs.subrange(0, i as int), f0),
    decreases i,
{
    if i > 0 {
        let (next, f, done) = pass_upto(cs, f0, (i - 1) as nat).unwrap();
        lemma_pass_done_reduced(cs, f0, (i - 1) as nat);
        let c = cs[i - 1];
        assert(done);
        assert(f == f0);
        let k = reduce_spec(c, f0).unwrap();
        assert(k.len() == c.len() && k.len() >= 2);
        lemma_reduce_same(c, f0, c.len());
        assert(c.subrange(0, c.len() as int) =~= c);
        assert(cs.subrange(0, i as int)[i - 1] == c);
        assert(cs.subrange(0, i as int).drop_last() =~= cs.subrange(0, i - 1));
        assert forall|j: int| 0 <= j < i implies (#[trigger] cs.subrange(0, i as int)[j]).len() >= 2 && clean_clause(cs.subrange(0, i as int)[j], f0) by {
            if j < i - 1 {
                assert(cs.subrange(0, i as int)[j] == cs.subrange(0, i - 1)[j]);
            }
        }
    }
}

/// A reduction that keeps every literal saw a clean clause.
proof fn lemma_reduce_same(c: Seq<i32>, f: Seq<Option<bool>>, i: nat)
    requires
        i <= c.len(),
        reduce_upto(c, f, i) matches Some(k) && k.len() == i,
    ensures
        clean_clause(c.subrange(0, i as int), f),
        forall|j: int, j2: int| 0 <= j < i && j < j2 < c.len() ==> #[trigger] c[j] != #[trigger] c[j2] && c[j] as int != -(c[j2] as int),
    decreases i,
{
    if i > 0 {
        lemma_reduce_upto_len(c, f, (i - 1) as nat);
        lemma_reduce_same(c, f, (i - 1) as nat);
        let l = c[i - 1];
        assert forall|j2: int| i - 1 < j2 < c.len() implies #[trigger] c[j2] != l && c[j2] as int != -(l as int) by {
            assert(!repeated_after(c, i - 1));
            assert(!complement_after(c, i - 1));
        }
        let p = c.subrange(0, i as int);
        assert forall|j: int| 0 <= j < p.len() implies (#[trigger] f[lit_var(p[j])]).is_none() by {
            if j < i - 1 {
                assert(p[j] == c.subrange(0, i - 1)[j]);
            }
        }
        assert forall|j: int, j2: int| 0 <= j < j2 < p.len() implies #[trigger] p[j] != #[trigger] p[j2] && p[j] as int != -(p[j2] as int) by {
            assert(p[j] == c[j] && p[j2] == c[j2]);
        }
    }
}

proof fn lemma_reduce_upto_len(c: Seq<i32>, f: Seq<Option<bool>>, i: nat)
    requires
        i <= c.len(),
        reduce_upto(c, f, i) is Some,
    ensures
        reduce_upto(c, f, i).unwrap().len() <= i,
    decreases i,
{
    if i > 0 {
        lemma_reduce_upto_len(c, f, (i - 1) as nat);
    }
}

/// Unit propagation is sound: a unit clause `[l]` of the input pins the
/// variable of `l` so that `l` holds; no pinned variable is left in any
/// simplified clause (clauses with a true pinned literal are gone, false pinned
/// literals are dropped); an assignment that keeps the pins and satisfies the
/// simplified clauses satisfies every clause of the input, the eliminated ones
/// included; and every model of the input keeps the pins.
pub proof fn lemma_preprocess_sound(c0: Seq<Seq<i32>>, f0: Seq<Option<bool>>, c1: Seq<Seq<i32>>, f1: Seq<Option<bool>>, a: Seq<bool>)
    requires
        simplify_spec(c0, f0, Some((c1, f1))),
        agrees(f0, a),
    ensures
        forall|i: int| 0 <= i < c0.len() && (#[trigger] c0[i]).len() == 1 ==> f1[lit_var(c0[i][0])] == Some(c0[i][0] > 0),
        forall|i: int, j: int| 0 <= i < c1.len() && 0 <= j < c1[i].len() ==> (#[trigger] f1[lit_var(c1[i][j])]) is None,
        agrees(f1, a) && all_hold(c1, a) ==> all_hold(c0, a),
        all_hold(c0, a) ==> agrees(f1, a) && all_hold(c1, a),
{
    assert((agrees(f0, a) && all_hold(c0, a)) <==> (agrees(f1, a) && all_hold(c1, a)));
    assert forall|i: int, j: int| 0 <= i < c1.len() && 0 <= j < c1[i].len() implies (#[trigger] f1[lit_var(c1[i][j])]) is None by {
        assert(clean_clause(c1[i], f1));
    }
}

/// Opposite unit clauses `[l]` and `[-l]` make preprocessing report that no
/// solution exists.
pub proof fn lemma_opposite_units(c0: Seq<Seq<i32>>, f0: Seq<Option<bool>>, r: Option<(Seq<Seq<i32>>, Seq<Option<bool>>)>, i: int, j: int)
    requires
        simplify_spec(c0, f0, r),
        0 <= i < c0.len(),
        0 <= j < c0.len(),
        c0[i].len() == 1,
        c0[j].len() == 1,
        c0[i][0] != 0,
        c0[i][0] != i32::MIN,
        c0[j][0] as int == -(c0[i][0] as int),
    ensures
        r is None,
{
    if r is Some {
        let f1 = r.unwrap().1;
        assert(forced_holds(c0[i][0], f1));
        assert(forced_holds(c0[j][0], f1));
        assert(lit_var(c0[i][0]) == lit_var(c0[j][0]));
    }
}

} // verus!
