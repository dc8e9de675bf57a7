use vstd::prelude::*;

verus! {

/// A set of analysis facts. Facts are identified by `u64` handles chosen by
/// the client analysis; the engine only ever works with whole sets of them.
///
/// The representation is a plain vector of fact identifiers; the abstract
/// value of a `FactSet` is the mathematical set of identifiers the vector
/// contains.
pub struct FactSet {
    pub elems: Vec<u64>,
}

impl View for FactSet {
    type V = Set<u64>;

    open spec fn view(&self) -> Set<u64> {
        Set::new(|x: u64| self.elems@.contains(x))
    }
}

proof fn lemma_push_contains(s: Seq<u64>, x: u64, y: u64)
    ensures
        s.push(x).contains(y) <==> (s.contains(y) || y == x),
{
    if s.contains(y) {
        let i = choose|i: int| 0 <= i < s.len() && s[i] == y;
        assert(s.push(x)[i] == y);
    }
    if y == x {
        assert(s.push(x)[s.len() as int] == y);
    }
    if s.push(x).contains(y) {
        let i = choose|i: int| 0 <= i < s.push(x).len() && s.push(x)[i] == y;
        if i < s.len() {
            assert(s[i] == y);
        }
    }
}

impl Clone for FactSet {
    fn clone(&self) -> (r: Self)
        ensures
            r.elems@ == self.elems@,
            r@ == self@,
    {
        let mut v: Vec<u64> = Vec::new();
        let mut i: usize = 0;
        while i < self.elems.len()
            invariant
                i <= self.elems@.len(),
                v@ == self.elems@.take(i as int),
            decreases self.elems@.len() - i,
        {
            v.push(self.elems[i]);
            proof {
                assert(v@ =~= self.elems@.take(i + 1));
            }
            i += 1;
        }
        proof {
            assert(v@ =~= self.elems@);
        }
        FactSet { elems: v }
    }
}

impl FactSet {
    /// The empty fact set: the bottom element of the lattice.
    pub fn empty() -> (r: FactSet)
        ensures
            r@ == Set::<u64>::empty(),
    {
        let r = FactSet { elems: Vec::new() };
        proof {
            assert(r@ =~= Set::<u64>::empty());
        }
        r
    }

    /// Whether the fact `x` is in this set.
    pub fn contains(&self, x: u64) -> (r: bool)
        ensures
            r == self@.contains(x),
            r == self.elems@.contains(x),
    {
        let mut i: usize = 0;
        while i < self.elems.len()
            invariant
                i <= self.elems@.len(),
                forall|j: int| 0 <= j < i ==> self.elems@[j] != x,
            decreases self.elems@.len() - i,
        {
            if self.elems[i] == x {
                return true;
            }
            i += 1;
        }
        false
    }

    /// This set with the fact `x` added.
    pub fn insert(self, x: u64) -> (r: FactSet)
        ensures
            r@ == self@.insert(x),
    {
        let ghost orig = self.elems@;
        let mut r = self;
        if !r.contains(x) {
            r.elems.push(x);
        }
        proof {
            assert forall|y: u64| r.elems@.contains(y) <==> (orig.contains(y) || y == x) by {
                lemma_push_contains(orig, x, y);
            }
            assert(r@ =~= Set::new(|q: u64| orig.contains(q)).insert(x));
        }
        r
    }

    /// The join of the lattice: facts that are in this set or in `other`.
    pub fn union(self, other: &Self) -> (r: Self)
        ensures
            r@ == self@.union(other@),
    {
        let ghost orig = self.elems@;
        let mut r = self;
        let mut i: usize = 0;
        while i < other.elems.len()
            invariant
                i <= other.elems@.len(),
                forall|y: u64|
                    #[trigger] r.elems@.contains(y) <==> orig.contains(y) || other.elems@.take(
                        i as int,
                    ).contains(y),
            decreases other.elems@.len() - i,
        {
            let x = other.elems[i];
            let ghost belems = r.elems@;
            if !r.contains(x) {
                r.elems.push(x);
            }
            proof {
                assert forall|y: u64| #[trigger]
                    r.elems@.contains(y) <==> orig.contains(y) || other.elems@.take(
                        i + 1,
                    ).contains(y) by {
                    lemma_push_contains(belems, x, y);
                    lemma_push_contains(other.elems@.take(i as int), x, y);
                    assert(other.elems@.take(i + 1) =~= other.elems@.take(i as int).push(x));
                }
            }
            i += 1;
        }
        proof {
            assert(other.elems@.take(other.elems@.len() as int) =~= other.elems@);
            assert forall|y: u64| r@.contains(y) <==> self@.union(other@).contains(y) by {
                assert(r.elems@.contains(y) <==> orig.contains(y) || other.elems@.contains(y));
            }
            assert(r@ =~= self@.union(other@));
        }
        r
    }

    /// The meet of the lattice: facts that are in this set and in `other`.
    pub fn intersection(self, other: &Self) -> (r: Self)
        ensures
            r@ == self@.intersect(other@),
    {
        let mut r = FactSet { elems: Vec::new() };
        let mut i: usize = 0;
        while i < self.elems.len()
            invariant
                i <= self.elems@.len(),
                forall|y: u64|
                    #[trigger] r.elems@.contains(y) <==> self.elems@.take(i as int).contains(y)
                        && other.elems@.contains(y),
            decreases self.elems@.len() - i,
        {
            let x = self.elems[i];
            let ghost belems = r.elems@;
            if other.contains(x) {
                r.elems.push(x);
            }
            proof {
                assert forall|y: u64| #[trigger]
                    r.elems@.contains(y) <==> self.elems@.take(i + 1).contains(y)
                        && other.elems@.contains(y) by {
                    lemma_push_contains(belems, x, y);
                    lemma_push_contains(self.elems@.take(i as int), x, y);
                    assert(self.elems@.take(i + 1) =~= self.elems@.take(i as int).push(x));
                }
            }
            i += 1;
        }
        proof {
            assert(self.elems@.take(self.elems@.len() as int) =~= self.elems@);
            assert forall|y: u64| r@.contains(y) <==> self@.intersect(other@).contains(y) by {
                assert(r.elems@.contains(y) <==> self.elems@.contains(y) && other.elems@.contains(
                    y,
                ));
            }
            assert(r@ =~= self@.intersect(other@));
        }
        r
    }

    /// Facts of this set that are absent from `other`; applies a node's kill set.
    pub fn difference(&self, other: &Self) -> (r: Self)
        ensures
            r@ == self@.difference(other@),
    {
        let mut r = FactSet { elems: Vec::new() };
        let mut i: usize = 0;
        while i < self.elems.len()
            invariant
                i <= self.elems@.len(),
                forall|y: u64|
                    #[trigger] r.elems@.contains(y) <==> self.elems@.take(i as int).contains(y)
                        && !other.elems@.contains(y),
            decreases self.elems@.len() - i,
        {
            let x = self.elems[i];
            let ghost belems = r.elems@;
            if !other.contains(x) {
                r.elems.push(x);
            }
            proof {
                assert forall|y: u64| #[trigger]
                    r.elems@.contains(y) <==> self.elems@.take(i + 1).contains(y)
                        && !other.elems@.contains(y) by {
                    lemma_push_contains(belems, x, y);
                    lemma_push_contains(self.elems@.take(i as int), x, y);
                    assert(self.elems@.take(i + 1) =~= self.elems@.take(i as int).push(x));
                }
            }
            i += 1;
        }
        proof {
            assert(self.elems@.take(self.elems@.len() as int) =~= self.elems@);
            assert forall|y: u64| r@.contains(y) <==> self@.difference(other@).contains(y) by {
                assert(r.elems@.contains(y) <==> self.elems@.contains(y) && !other.elems@.contains(
                    y,
                ));
            }
            assert(r@ =~= self@.difference(other@));
        }
        r
    }

    /// Whether every fact of this set is also in `other`.
    pub fn is_subset(&self, other: &Self) -> (r: bool)
        ensures
            r == self@.subset_of(other@),
    {
        let mut i: usize = 0;
        while i < self.elems.len()
            invariant
                i <= self.elems@.len(),
                forall|j: int| 0 <= j < i ==> other@.contains(#[trigger] self.elems@[j]),
            decreases self.elems@.len() - i,
        {
            if !other.contains(self.elems[i]) {
                assert(self@.contains(self.elems@[i as int]));
                return false;
            }
            i += 1;
        }
        assert forall|y: u64| self@.contains(y) implies other@.contains(y) by {
            let j = choose|j: int| 0 <= j < self.elems@.len() && self.elems@[j] == y;
            assert(other@.contains(self.elems@[j]));
        }
        true
    }

    /// Equality of the abstract sets: the stability test of the engine.
    pub fn set_eq(&self, other: &Self) -> (r: bool)
        ensures
            r == (self@ == other@),
    {
        let r = self.is_subset(other) && other.is_subset(self);
        proof {
            if r {
                assert(self@ =~= other@);
            }
        }
        r
    }
}

/// Union is idempotent: joining a fact set with itself changes nothing.
pub proof fn lemma_union_idempotent(a: FactSet)
    ensures
        a@.union(a@) == a@,
{
    assert(a@.union(a@) =~= a@);
}

/// Intersection is idempotent: meeting a fact set with itself changes nothing.
pub proof fn lemma_intersection_idempotent(a: FactSet)
    ensures
        a@.intersect(a@) == a@,
{
    assert(a@.intersect(a@) =~= a@);
}

/// Union is commutative.
pub proof fn lemma_union_commutative(a: FactSet, b: FactSet)
    ensures
        a@.union(b@) == b@.union(a@),
{
    assert(a@.union(b@) =~= b@.union(a@));
}

/// Intersection is commutative.
pub proof fn lemma_intersection_commutative(a: FactSet, b: FactSet)
    ensures
        a@.intersect(b@) == b@.intersect(a@),
{
    assert(a@.intersect(b@) =~= b@.intersect(a@));
}

/// Union is associative.
pub proof fn lemma_union_associative(a: FactSet, b: FactSet, c: FactSet)
    ensures
        a@.union(b@).union(c@) == a@.union(b@.union(c@)),
{
    assert(a@.union(b@).union(c@) =~= a@.union(b@.union(c@)));
}

/// Intersection is associative.
pub proof fn lemma_intersection_associative(a: FactSet, b: FactSet, c: FactSet)
    ensures
        a@.intersect(b@).intersect(c@) == a@.intersect(b@.intersect(c@)),
{
    assert(a@.intersect(b@).intersect(c@) =~= a@.intersect(b@.intersect(c@)));
}

} // verus!
