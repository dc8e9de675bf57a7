use vstd::prelude::*;

use vstd::set_lib::lemma_len_subset;

use crate::engine::combine_spec;
use crate::factset::FactSet;
use crate::graph::Graph;
use crate::state::State;

verus! {

/// The facts of a fact set form a finite set.
pub proof fn lemma_factset_finite(fs: FactSet)
    ensures
        fs@.finite(),
{
    broadcast use vstd::seq_lib::seq_to_set_is_finite;

    assert(fs@ =~= fs.elems@.to_set());
}

/// The union of the gen sets of nodes `0 .. v`.
pub open spec fn gens_union(gens: Seq<FactSet>, v: int) -> Set<u64>
    decreases v,
{
    if v <= 0 {
        Set::<u64>::empty()
    } else {
        gens_union(gens, v - 1).union(gens[v - 1]@)
    }
}

/// Every fact the engine can ever record comes from some node's gen set when
/// the run starts from empty `in`/`out` records: this is that universe.
pub open spec fn fact_universe(gens: Seq<FactSet>) -> Set<u64> {
    gens_union(gens, gens.len() as int)
}

pub(crate) proof fn lemma_gens_union_finite(gens: Seq<FactSet>, v: int)
    ensures
        gens_union(gens, v).finite(),
    decreases v,
{
    if v <= 0 {
    } else {
        lemma_gens_union_finite(gens, v - 1);
        lemma_factset_finite(gens[v - 1]);
    }
}

pub(crate) proof fn lemma_gen_in_universe(gens: Seq<FactSet>, v: int, w: int)
    requires
        0 <= v < w,
    ensures
        gens[v]@.subset_of(gens_union(gens, w)),
    decreases w,
{
    if v == w - 1 {
    } else {
        lemma_gen_in_universe(gens, v, w - 1);
    }
}

/// The transfer is monotone in its input fact set: a larger input never gives
/// a smaller result.
pub open spec fn kfn_monotone<F: Fn(&FactSet, &FactSet) -> FactSet>(kfn: F) -> bool {
    forall|a1: FactSet, a2: FactSet, k: FactSet, t1: FactSet, t2: FactSet|
        #![trigger call_ensures(kfn, (&a1, &k), t1), call_ensures(kfn, (&a2, &k), t2)]
        (a1@.subset_of(a2@) && call_ensures(kfn, (&a1, &k), t1) && call_ensures(kfn, (&a2, &k), t2))
            ==> t1@.subset_of(t2@)
}

/// The transfer only removes facts: its result is contained in its input, as
/// plain set difference is.
pub open spec fn kfn_reductive<F: Fn(&FactSet, &FactSet) -> FactSet>(kfn: F) -> bool {
    forall|a: FactSet, k: FactSet, t: FactSet|
        #[trigger] call_ensures(kfn, (&a, &k), t) ==> t@.subset_of(a@)
}

/// Every `in` and `out` record of the state is empty: the lattice bottom,
/// the typical start of an analysis.
pub open spec fn bottom_start(st: State) -> bool {
    &&& forall|v: int| 0 <= v < st.ins@.len() ==> (#[trigger] st.ins@[v])@ == Set::<u64>::empty()
    &&& forall|v: int| 0 <= v < st.outs@.len() ==> (#[trigger] st.outs@[v])@ == Set::<u64>::empty()
}

/// How many worklist entries a change at node `v` can add, plus the pop of
/// `v` itself.
pub open spec fn aff_weight(g: Graph, fwd: bool, v: int) -> int {
    1 + g.affected_of(fwd, v).len() as int
}

/// The termination potential of the records of nodes `0 .. v`: how much each
/// node's output-side record can still grow, weighted by the worklist entries
/// each growth can cost.
pub open spec fn phi_sum(g: Graph, st: State, fwd: bool, cap: int, v: int) -> int
    decreases v,
{
    if v <= 0 {
        0
    } else {
        phi_sum(g, st, fwd, cap, v - 1) + (cap - st.b_list(fwd)[v - 1]@.len()) * aff_weight(
            g,
            fwd,
            v - 1,
        )
    }
}

/// A worklist budget that always suffices for a monotone, reductive transfer
/// on a bottom-started state: the seeded worklist plus the total potential of
/// the records.
pub open spec fn fuel_bound(g: Graph, st: State, fwd: bool) -> int {
    g.num_nodes() + phi_sum(g, st, fwd, fact_universe(st.gens@).len() as int, g.num_nodes())
}

pub(crate) proof fn lemma_phi_sum_congruence(
    g: Graph,
    st1: State,
    st2: State,
    fwd: bool,
    cap: int,
    v: int,
)
    requires
        forall|w: int| 0 <= w < v ==> st1.b_list(fwd)[w]@.len() == st2.b_list(fwd)[w]@.len(),
    ensures
        phi_sum(g, st1, fwd, cap, v) == phi_sum(g, st2, fwd, cap, v),
    decreases v,
{
    if v <= 0 {
    } else {
        lemma_phi_sum_congruence(g, st1, st2, fwd, cap, v - 1);
    }
}

pub(crate) proof fn lemma_phi_sum_update(
    g: Graph,
    st1: State,
    st2: State,
    fwd: bool,
    cap: int,
    u: int,
    v: int,
)
    requires
        0 <= u,
        forall|w: int|
            0 <= w < v && w != u ==> st1.b_list(fwd)[w]@.len() == st2.b_list(fwd)[w]@.len(),
    ensures
        u < v ==> phi_sum(g, st2, fwd, cap, v) == phi_sum(g, st1, fwd, cap, v) + (st1.b_list(
            fwd,
        )[u]@.len() - st2.b_list(fwd)[u]@.len()) * aff_weight(g, fwd, u),
        v <= u ==> phi_sum(g, st2, fwd, cap, v) == phi_sum(g, st1, fwd, cap, v),
    decreases v,
{
    if v <= 0 {
    } else {
        lemma_phi_sum_update(g, st1, st2, fwd, cap, u, v - 1);
        if u == v - 1 {
            let l1 = st1.b_list(fwd)[u]@.len() as int;
            let l2 = st2.b_list(fwd)[u]@.len() as int;
            let w = aff_weight(g, fwd, u);
            assert((cap - l2) * w == (cap - l1) * w + (l1 - l2) * w) by (nonlinear_arith);
        }
    }
}

pub(crate) proof fn lemma_phi_sum_nonneg(g: Graph, st: State, fwd: bool, cap: int, v: int)
    requires
        forall|w: int| 0 <= w < v ==> st.b_list(fwd)[w]@.len() <= cap,
    ensures
        phi_sum(g, st, fwd, cap, v) >= 0,
    decreases v,
{
    if v <= 0 {
    } else {
        lemma_phi_sum_nonneg(g, st, fwd, cap, v - 1);
        let l = st.b_list(fwd)[v - 1]@.len() as int;
        let w = aff_weight(g, fwd, v - 1);
        assert((cap - l) * w >= 0) by (nonlinear_arith)
            requires
                cap - l >= 0,
                w >= 1,
        ;
    }
}

/// A strictly larger finite set has strictly more elements.
pub(crate) proof fn lemma_strict_subset_len(a: Set<u64>, b: Set<u64>)
    requires
        a.subset_of(b),
        a != b,
        b.finite(),
    ensures
        a.len() < b.len(),
{
    assert(exists|x: u64| b.contains(x) && !a.contains(x)) by {
        if forall|x: u64| #[trigger] b.contains(x) ==> a.contains(x) {
            assert(a =~= b);
        }
    }
    let x = choose|x: u64| b.contains(x) && !a.contains(x);
    a.lemma_subset_not_in_lt(b, x);
}

/// The confluence combine is monotone: growing the output-side records of the
/// inputs never shrinks the combined set, under either mode.
pub(crate) proof fn lemma_combine_monotone(
    st1: State,
    st2: State,
    fwd: bool,
    may: bool,
    inputs: Seq<usize>,
)
    requires
        forall|k: int|
            0 <= k < inputs.len() ==> st1.b_list(fwd)[#[trigger] inputs[k] as int]@.subset_of(
                st2.b_list(fwd)[inputs[k] as int]@,
            ),
    ensures
        combine_spec(st1, fwd, may, inputs).subset_of(combine_spec(st2, fwd, may, inputs)),
    decreases inputs.len(),
{
    if inputs.len() == 0 {
    } else if inputs.len() == 1 {
        assert(st1.b_list(fwd)[inputs[0] as int]@.subset_of(st2.b_list(fwd)[inputs[0] as int]@));
    } else {
        assert forall|k: int|
            0 <= k < inputs.drop_last().len() implies st1.b_list(fwd)[
        #[trigger] inputs.drop_last()[k] as int]@.subset_of(
            st2.b_list(fwd)[inputs.drop_last()[k] as int]@,
        ) by {
            assert(forall|k: int|
                0 <= k < inputs.drop_last().len() ==> inputs.drop_last()[k] == #[trigger] inputs[k]);
        }
        lemma_combine_monotone(st1, st2, fwd, may, inputs.drop_last());
        assert(st1.b_list(fwd)[inputs.last() as int]@.subset_of(
            st2.b_list(fwd)[inputs.last() as int]@,
        ));
    }
}

/// The confluence combine stays inside any set that contains all the inputs'
/// output-side records, under either mode.
pub(crate) proof fn lemma_combine_bounded(
    st: State,
    fwd: bool,
    may: bool,
    inputs: Seq<usize>,
    u: Set<u64>,
)
    requires
        forall|k: int|
            0 <= k < inputs.len() ==> st.b_list(fwd)[#[trigger] inputs[k] as int]@.subset_of(u),
    ensures
        combine_spec(st, fwd, may, inputs).subset_of(u),
    decreases inputs.len(),
{
    if inputs.len() == 0 {
    } else if inputs.len() == 1 {
        assert(st.b_list(fwd)[inputs[0] as int]@.subset_of(u));
    } else {
        assert forall|k: int|
            0 <= k < inputs.drop_last().len() implies st.b_list(fwd)[
        #[trigger] inputs.drop_last()[k] as int]@.subset_of(u) by {
            assert(forall|k: int|
                0 <= k < inputs.drop_last().len() ==> inputs.drop_last()[k] == #[trigger] inputs[k]);
        }
        lemma_combine_bounded(st, fwd, may, inputs.drop_last(), u);
        assert(st.b_list(fwd)[inputs.last() as int]@.subset_of(u));
    }
}

/// The transfer implements the abstract set function `tf`: every possible
/// result of a call equals `tf` of the argument views. Plain set difference
/// implements `|a, k| a.difference(k)`.
pub open spec fn kfn_implements<F: Fn(&FactSet, &FactSet) -> FactSet>(
    kfn: F,
    tf: spec_fn(Set<u64>, Set<u64>) -> Set<u64>,
) -> bool {
    forall|a: FactSet, k: FactSet, t: FactSet|
        #[trigger] call_ensures(kfn, (&a, &k), t) ==> t@ == tf(a@, k@)
}

/// The abstract transfer is monotone in its input set.
pub open spec fn tf_monotone(tf: spec_fn(Set<u64>, Set<u64>) -> Set<u64>) -> bool {
    forall|a1: Set<u64>, a2: Set<u64>, k: Set<u64>|
        #![trigger tf(a1, k), tf(a2, k)]
        a1.subset_of(a2) ==> tf(a1, k).subset_of(tf(a2, k))
}

/// The state `sol` solves the dataflow equations for the abstract transfer
/// `tf`: each node's input side is the confluence of its inputs, and each
/// node's output side is `tf` of its input side and kill set, joined with its
/// gen set.
pub open spec fn tf_solution(
    g: Graph,
    sol: State,
    fwd: bool,
    may: bool,
    tf: spec_fn(Set<u64>, Set<u64>) -> Set<u64>,
) -> bool {
    forall|v: int|
        0 <= v < g.num_nodes() ==> (#[trigger] sol.a_list(fwd)[v])@ == combine_spec(
            sol,
            fwd,
            may,
            g.inputs_of(fwd, v),
        ) && sol.b_list(fwd)[v]@ == tf(sol.a_list(fwd)[v]@, sol.kills@[v]@).union(sol.gens@[v]@)
}

/// Every record of `st` is contained in the matching record of `sol`.
pub open spec fn below(st: State, sol: State, fwd: bool, n: int) -> bool {
    forall|v: int|
        0 <= v < n ==> (#[trigger] st.a_list(fwd)[v])@.subset_of(sol.a_list(fwd)[v]@)
            && st.b_list(fwd)[v]@.subset_of(sol.b_list(fwd)[v]@)
}

pub(crate) proof fn lemma_below_intro(st: State, sol: State, fwd: bool, n: int)
    requires
        forall|v: int|
            0 <= v < n ==> (#[trigger] st.a_list(fwd)[v])@.subset_of(sol.a_list(fwd)[v]@)
                && st.b_list(fwd)[v]@.subset_of(sol.b_list(fwd)[v]@),
    ensures
        below(st, sol, fwd, n),
{
}

} // verus!
