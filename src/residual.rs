//! The set of violated clause indices: a vector of members and, per clause,
//! its slot in that vector, so that insertion and removal take constant time.
use vstd::prelude::*;

verus! {

pub struct ResidualSet {
    pub items: Vec<usize>,
    pub slot: Vec<usize>,
}

impl View for ResidualSet {
    type V = Set<usize>;

    open spec fn view(&self) -> Set<usize> {
        self.items@.to_set()
    }
}

impl ResidualSet {
    /// Members are below `m`, and each member's slot points back at it.
    pub open spec fn wf(&self, m: nat) -> bool {
        &&& self.slot@.len() == m
        &&& forall|k: int| 0 <= k < self.items@.len() ==> (#[trigger] self.items@[k]) < m && self.slot@[self.items@[k] as int] == k
    }

    /// An empty set over clause indices below `m`.
    pub fn new(m: usize) -> (r: ResidualSet)
        ensures
            r.wf(m as nat),
            r@ == Set::<usize>::empty(),
    {
        let r = ResidualSet { items: Vec::new(), slot: vec![0; m] };
        assert(r@ =~= Set::<usize>::empty());
        r
    }

    pub fn is_empty(&self) -> (r: bool)
        ensures
            r == (self@ == Set::<usize>::empty()),
    {
        proof {
            if self.items@.len() > 0 {
                assert(self@.contains(self.items@[0]));
            }
            if self.items@.len() == 0 {
                assert(self@ =~= Set::<usize>::empty());
            }
        }
        self.items.len() == 0
    }

    /// Some member; which one is left to the representation.
    pub fn any(&self) -> (r: usize)
        requires
            self@ != Set::<usize>::empty(),
        ensures
            self@.contains(r),
    {
        proof {
            if self.items@.len() == 0 {
                assert(self@ =~= Set::<usize>::empty());
            }
        }
        assert(self@.contains(self.items@[0]));
        self.items[0]
    }

    pub fn insert(&mut self, c: usize)
        requires
            old(self).wf(old(self).slot@.len()),
            c < old(self).slot@.len(),
            !old(self)@.contains(c),
        ensures
            final(self).wf(old(self).slot@.len()),
            final(self)@ == old(self)@.insert(c),
    {
        let ghost m = self.slot@.len();
        let ghost items0 = self.items@;
        let k = self.items.len();
        self.items.push(c);
        self.slot.set(c, k);
        proof {
            assert forall|j: int| 0 <= j < self.items@.len() implies (#[trigger] self.items@[j]) < m && self.slot@[self.items@[j] as int] == j by {
                if j < k {
                    assert(items0[j] != c) by {
                        assert(items0.contains(items0[j]));
                    }
                }
            }
            assert(self.items@ == items0.push(c));
            assert forall|x: usize| #[trigger] self@.contains(x) <==> old(self)@.contains(x) || x == c by {
                if old(self)@.contains(x) {
                    let j = choose|j: int| 0 <= j < items0.len() && items0[j] == x;
                    assert(self.items@[j] == x);
                }
                if x == c {
                    assert(self.items@[k as int] == x);
                }
                if self@.contains(x) && x != c {
                    let j = choose|j: int| 0 <= j < self.items@.len() && self.items@[j] == x;
                    assert(items0[j] == x);
                }
            }
            assert(self@ =~= old(self)@.insert(c));
        }
    }

    pub fn remove(&mut self, c: usize)
        requires
            old(self).wf(old(self).slot@.len()),
            old(self)@.contains(c),
        ensures
            final(self).wf(old(self).slot@.len()),
            final(self)@ == old(self)@.remove(c),
    {
        let ghost m = self.slot@.len();
        let ghost items0 = self.items@;
        proof {
            let j = choose|j: int| 0 <= j < items0.len() && items0[j] == c;
            assert(self.slot@[c as int] == j);
        }
        let k = self.slot[c];
        let last = self.items.pop().unwrap();
        if k < self.items.len() {
            self.items.set(k, last);
            self.slot.set(last, k);
        }
        proof {
            let n1 = items0.len() - 1;
            assert forall|j: int| 0 <= j < self.items@.len() implies (#[trigger] self.items@[j]) < m && self.slot@[self.items@[j] as int] == j by {
                if j != k {
                    assert(self.items@[j] == items0[j]);
                    assert(items0[j] != last) by {
                        assert(self.slot@[items0[j] as int] == j || items0[j] == last);
                    }
                }
            }
            assert forall|x: usize| #[trigger] self@.contains(x) <==> old(self)@.contains(x) && x != c by {
                if old(self)@.contains(x) && x != c {
                    let j = choose|j: int| 0 <= j < items0.len() && items0[j] == x;
                    if j == n1 {
                        assert(self.items@[k as int] == x);
                    } else {
                        assert(j != k);
                        assert(self.items@[j] == x);
                    }
                }
                if self@.contains(x) {
                    let j = choose|j: int| 0 <= j < self.items@.len() && self.items@[j] == x;
                    if j == k {
                        assert(items0[n1] == x);
                        assert(x != c);
                    } else {
                        assert(items0[j] == x);
                    }
                }
            }
            assert(self@ =~= old(self)@.remove(c));
        }
    }
}

} // verus!
