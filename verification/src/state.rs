use vstd::prelude::*;

use crate::factset::FactSet;

verus! {

/// The per-run analysis state: for each node its immutable `gen` and `kill`
/// fact sets, and the `in` and `out` fact sets that the engine computes.
pub struct State {
    pub gens: Vec<FactSet>,
    pub kills: Vec<FactSet>,
    pub ins: Vec<FactSet>,
    pub outs: Vec<FactSet>,
}

impl State {
    /// Well-formedness: one record per node of the graph being analyzed.
    pub open spec fn wf(self, n: int) -> bool {
        &&& self.gens@.len() == n
        &&& self.kills@.len() == n
        &&& self.ins@.len() == n
        &&& self.outs@.len() == n
    }

    /// The input-side records of a run: `in` under a forward analysis, `out`
    /// under a backward one.
    pub open spec fn a_list(self, fwd: bool) -> Seq<FactSet> {
        if fwd {
            self.ins@
        } else {
            self.outs@
        }
    }

    /// The output-side records of a run: `out` under a forward analysis, `in`
    /// under a backward one.
    pub open spec fn b_list(self, fwd: bool) -> Seq<FactSet> {
        if fwd {
            self.outs@
        } else {
            self.ins@
        }
    }

    /// The state with the roles of the `in` and `out` records exchanged.
    pub open spec fn swapped(self) -> State {
        State { gens: self.gens, kills: self.kills, ins: self.outs, outs: self.ins }
    }

    /// A state whose every record is the empty fact set.
    pub fn new(n: usize) -> (r: State)
        ensures
            r.wf(n as int),
            forall|v: int| 0 <= v < n ==> (#[trigger] r.gens@[v])@ == Set::<u64>::empty(),
            forall|v: int| 0 <= v < n ==> (#[trigger] r.kills@[v])@ == Set::<u64>::empty(),
            forall|v: int| 0 <= v < n ==> (#[trigger] r.ins@[v])@ == Set::<u64>::empty(),
            forall|v: int| 0 <= v < n ==> (#[trigger] r.outs@[v])@ == Set::<u64>::empty(),
    {
        let mut gens: Vec<FactSet> = Vec::new();
        let mut kills: Vec<FactSet> = Vec::new();
        let mut ins: Vec<FactSet> = Vec::new();
        let mut outs: Vec<FactSet> = Vec::new();
        let mut i: usize = 0;
        while i < n
            invariant
                i <= n,
                gens@.len() == i,
                kills@.len() == i,
                ins@.len() == i,
                outs@.len() == i,
                forall|v: int| 0 <= v < i ==> (#[trigger] gens@[v])@ == Set::<u64>::empty(),
                forall|v: int| 0 <= v < i ==> (#[trigger] kills@[v])@ == Set::<u64>::empty(),
                forall|v: int| 0 <= v < i ==> (#[trigger] ins@[v])@ == Set::<u64>::empty(),
                forall|v: int| 0 <= v < i ==> (#[trigger] outs@[v])@ == Set::<u64>::empty(),
            decreases n - i,
        {
            gens.push(FactSet::empty());
            kills.push(FactSet::empty());
            ins.push(FactSet::empty());
            outs.push(FactSet::empty());
            i += 1;
        }
        State { gens, kills, ins, outs }
    }

    /// The facts node `i` introduces.
    pub fn gen(&self, i: usize) -> (r: &FactSet)
        requires
            i < self.gens@.len(),
        ensures
            *r == self.gens@[i as int],
    {
        &self.gens[i]
    }

    /// The facts node `i` removes.
    pub fn kill(&self, i: usize) -> (r: &FactSet)
        requires
            i < self.kills@.len(),
        ensures
            *r == self.kills@[i as int],
    {
        &self.kills[i]
    }

    /// The facts on entry to node `i`.
    pub fn in_facts(&self, i: usize) -> (r: &FactSet)
        requires
            i < self.ins@.len(),
        ensures
            *r == self.ins@[i as int],
    {
        &self.ins[i]
    }

    /// The facts on exit from node `i`.
    pub fn out_facts(&self, i: usize) -> (r: &FactSet)
        requires
            i < self.outs@.len(),
        ensures
            *r == self.outs@[i as int],
    {
        &self.outs[i]
    }

    /// Replaces the `gen` set of node `i`.
    pub fn set_gen(&mut self, i: usize, s: FactSet)
        requires
            i < old(self).gens@.len(),
        ensures
            final(self).gens@ == old(self).gens@.update(i as int, s),
            final(self).kills@ == old(self).kills@,
            final(self).ins@ == old(self).ins@,
            final(self).outs@ == old(self).outs@,
    {
        let _prev: FactSet = self.gens.remove(i);
        self.gens.insert(i, s);
        proof {
            assert(self.gens@ =~= old(self).gens@.update(i as int, s));
        }
    }

    /// Replaces the `kill` set of node `i`.
    pub fn set_kill(&mut self, i: usize, s: FactSet)
        requires
            i < old(self).kills@.len(),
        ensures
            final(self).kills@ == old(self).kills@.update(i as int, s),
            final(self).gens@ == old(self).gens@,
            final(self).ins@ == old(self).ins@,
            final(self).outs@ == old(self).outs@,
    {
        let _prev: FactSet = self.kills.remove(i);
        self.kills.insert(i, s);
        proof {
            assert(self.kills@ =~= old(self).kills@.update(i as int, s));
        }
    }

    /// Replaces the `in` set of node `i`.
    pub fn set_in_facts(&mut self, i: usize, s: FactSet)
        requires
            i < old(self).ins@.len(),
        ensures
            final(self).ins@ == old(self).ins@.update(i as int, s),
            final(self).gens@ == old(self).gens@,
            final(self).kills@ == old(self).kills@,
            final(self).outs@ == old(self).outs@,
    {
        let _prev: FactSet = self.ins.remove(i);
        self.ins.insert(i, s);
        proof {
            assert(self.ins@ =~= old(self).ins@.update(i as int, s));
        }
    }

    /// Replaces the `out` set of node `i`.
    pub fn set_out_facts(&mut self, i: usize, s: FactSet)
        requires
            i < old(self).outs@.len(),
        ensures
            final(self).outs@ == old(self).outs@.update(i as int, s),
            final(self).gens@ == old(self).gens@,
            final(self).kills@ == old(self).kills@,
            final(self).ins@ == old(self).ins@,
    {
        let _prev: FactSet = self.outs.remove(i);
        self.outs.insert(i, s);
        proof {
            assert(self.outs@ =~= old(self).outs@.update(i as int, s));
        }
    }

    /// The input-side record of node `i` for the given direction.
    pub fn get_a(&self, fwd: bool, i: usize) -> (r: &FactSet)
        requires
            i < self.ins@.len(),
            i < self.outs@.len(),
        ensures
            *r == self.a_list(fwd)[i as int],
    {
        if fwd {
            self.in_facts(i)
        } else {
            self.out_facts(i)
        }
    }

    /// The output-side record of node `i` for the given direction.
    pub fn get_b(&self, fwd: bool, i: usize) -> (r: &FactSet)
        requires
            i < self.ins@.len(),
            i < self.outs@.len(),
        ensures
            *r == self.b_list(fwd)[i as int],
    {
        if fwd {
            self.out_facts(i)
        } else {
            self.in_facts(i)
        }
    }

    /// Writes the input-side record of node `i` for the given direction.
    pub fn set_a(&mut self, fwd: bool, i: usize, s: FactSet)
        requires
            i < old(self).ins@.len(),
            i < old(self).outs@.len(),
        ensures
            final(self).a_list(fwd) == old(self).a_list(fwd).update(i as int, s),
            final(self).b_list(fwd) == old(self).b_list(fwd),
            final(self).gens@ == old(self).gens@,
            final(self).kills@ == old(self).kills@,
    {
        if fwd {
            self.set_in_facts(i, s);
        } else {
            self.set_out_facts(i, s);
        }
    }

    /// Writes the output-side record of node `i` for the given direction.
    pub fn set_b(&mut self, fwd: bool, i: usize, s: FactSet)
        requires
            i < old(self).ins@.len(),
            i < old(self).outs@.len(),
        ensures
            final(self).b_list(fwd) == old(self).b_list(fwd).update(i as int, s),
            final(self).a_list(fwd) == old(self).a_list(fwd),
            final(self).gens@ == old(self).gens@,
            final(self).kills@ == old(self).kills@,
    {
        if fwd {
            self.set_out_facts(i, s);
        } else {
            self.set_in_facts(i, s);
        }
    }
}

} // verus!
