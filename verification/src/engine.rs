use vstd::prelude::*;

use crate::factset::FactSet;
use crate::graph::Graph;
use crate::graph::lemma_inputs_affected;
use crate::state::State;
use crate::termination::aff_weight;
use crate::termination::below;
use crate::termination::bottom_start;
use crate::termination::kfn_implements;
use crate::termination::lemma_below_intro;
use crate::termination::tf_monotone;
use crate::termination::tf_solution;
use crate::termination::fact_universe;
use crate::termination::fuel_bound;
use crate::termination::kfn_monotone;
use crate::termination::kfn_reductive;
use crate::termination::lemma_combine_bounded;
use crate::termination::lemma_combine_monotone;
use crate::termination::lemma_gen_in_universe;
use crate::termination::lemma_gens_union_finite;
use crate::termination::lemma_phi_sum_congruence;
use crate::termination::lemma_phi_sum_nonneg;
use crate::termination::lemma_phi_sum_update;
use crate::termination::lemma_strict_subset_len;
use crate::termination::phi_sum;
use vstd::set_lib::lemma_len_subset;

verus! {

/// The direction of propagation: which relation feeds a node and which nodes
/// must be revisited when it changes.
pub trait Direction: Sized {
    /// Whether this is the forward direction.
    spec fn is_forward(&self) -> bool;

    /// The direction, as an executable value.
    fn forward(&self) -> (r: bool)
        ensures
            r == self.is_forward(),
    ;
}

/// Forward analysis: facts flow from predecessors into a node and on to its
/// successors.
pub struct Forward;

/// Backward analysis: facts flow from successors into a node and on to its
/// predecessors.
pub struct Backward;

impl Direction for Forward {
    open spec fn is_forward(&self) -> bool {
        true
    }

    fn forward(&self) -> (r: bool) {
        true
    }
}

impl Direction for Backward {
    open spec fn is_forward(&self) -> bool {
        false
    }

    fn forward(&self) -> (r: bool) {
        false
    }
}

/// How the fact sets flowing into a node are combined.
pub open spec fn op_spec(may: bool, a: Set<u64>, b: Set<u64>) -> Set<u64> {
    if may {
        a.union(b)
    } else {
        a.intersect(b)
    }
}

/// The confluence mode: whether a fact must hold on some path into a node or
/// on every path.
pub trait Mode: Sized {
    /// Whether this is May confluence (union); otherwise Must (intersection).
    spec fn is_may(&self) -> bool;

    /// Combines one more input fact set into the accumulator.
    fn op(&self, this: FactSet, other: &FactSet) -> (r: FactSet)
        ensures
            r@ == op_spec(self.is_may(), this@, other@),
    ;
}

/// May confluence: a fact holds if it holds on any incoming path.
pub struct May;

/// Must confluence: a fact holds only if it holds on every incoming path.
pub struct Must;

impl Mode for May {
    open spec fn is_may(&self) -> bool {
        true
    }

    fn op(&self, this: FactSet, other: &FactSet) -> (r: FactSet) {
        this.union(other)
    }
}

impl Mode for Must {
    open spec fn is_may(&self) -> bool {
        false
    }

    fn op(&self, this: FactSet, other: &FactSet) -> (r: FactSet) {
        this.intersection(other)
    }
}

/// The confluence of the output-side fact sets of the listed input nodes:
/// empty when a node has no inputs, and otherwise the fold of the mode's
/// operation over the inputs' fact sets, starting from the first one.
pub open spec fn combine_spec(st: State, fwd: bool, may: bool, inputs: Seq<usize>) -> Set<u64>
    decreases inputs.len(),
{
    if inputs.len() == 0 {
        Set::<u64>::empty()
    } else if inputs.len() == 1 {
        st.b_list(fwd)[inputs[0] as int]@
    } else {
        op_spec(may, combine_spec(st, fwd, may, inputs.drop_last()), st.b_list(fwd)[inputs.last() as int]@)
    }
}

proof fn lemma_combine_take_step(st: State, fwd: bool, may: bool, inputs: Seq<usize>, k: int)
    requires
        1 <= k < inputs.len(),
    ensures
        combine_spec(st, fwd, may, inputs.take(k + 1)) == op_spec(
            may,
            combine_spec(st, fwd, may, inputs.take(k)),
            st.b_list(fwd)[inputs[k] as int]@,
        ),
{
    let t1 = inputs.take(k + 1);
    assert(t1.drop_last() =~= inputs.take(k));
    assert(t1.last() == inputs[k]);
}

/// The combine of a list of inputs depends only on the output-side records at
/// those inputs.
proof fn lemma_combine_congruence(st1: State, st2: State, fwd: bool, may: bool, inputs: Seq<usize>)
    requires
        forall|k: int|
            0 <= k < inputs.len() ==> st1.b_list(fwd)[#[trigger] inputs[k] as int] == st2.b_list(
                fwd,
            )[inputs[k] as int],
    ensures
        combine_spec(st1, fwd, may, inputs) == combine_spec(st2, fwd, may, inputs),
    decreases inputs.len(),
{
    if inputs.len() == 0 {
    } else if inputs.len() == 1 {
        assert(st1.b_list(fwd)[inputs[0] as int] == st2.b_list(fwd)[inputs[0] as int]);
    } else {
        assert forall|k: int|
            0 <= k < inputs.drop_last().len() implies st1.b_list(fwd)[
        #[trigger] inputs.drop_last()[k] as int] == st2.b_list(fwd)[inputs.drop_last()[k] as int] by {
            assert(forall|k: int|
                0 <= k < inputs.drop_last().len() ==> inputs.drop_last()[k] == #[trigger] inputs[k]);
        }
        lemma_combine_congruence(st1, st2, fwd, may, inputs.drop_last());
        assert(st1.b_list(fwd)[inputs.last() as int] == st2.b_list(fwd)[inputs.last() as int]);
    }
}

/// Computes the confluence of the inputs of `node`: step 2 of the worklist
/// loop.
fn combine_inputs<M: Mode>(g: &Graph, st: &State, fwd: bool, mode: &M, node: usize) -> (r: FactSet)
    requires
        g.wf(),
        st.wf(g.num_nodes()),
        node < g.num_nodes(),
    ensures
        r@ == combine_spec(*st, fwd, mode.is_may(), g.inputs_of(fwd, node as int)),
{
    let inputs: &Vec<usize> = g.inputs(fwd, node);
    if inputs.len() == 0 {
        return FactSet::empty();
    }
    proof {
        assert(g.inputs_of(fwd, node as int)[0] < g.num_nodes());
    }
    let mut acc = st.get_b(fwd, inputs[0]).clone();
    proof {
        let t1 = g.inputs_of(fwd, node as int).take(1);
        assert(t1.len() == 1 && t1[0] == g.inputs_of(fwd, node as int)[0]);
    }
    let mut k: usize = 1;
    while k < inputs.len()
        invariant
            g.wf(),
            st.wf(g.num_nodes()),
            node < g.num_nodes(),
            inputs@ == g.inputs_of(fwd, node as int),
            1 <= k <= inputs@.len(),
            acc@ == combine_spec(*st, fwd, mode.is_may(), inputs@.take(k as int)),
        decreases inputs@.len() - k,
    {
        proof {
            assert(g.inputs_of(fwd, node as int)[k as int] < g.num_nodes());
        }
        let b = st.get_b(fwd, inputs[k]);
        acc = mode.op(acc, b);
        proof {
            lemma_combine_take_step(*st, fwd, mode.is_may(), inputs@, k as int);
        }
        k += 1;
    }
    proof {
        assert(inputs@.take(inputs@.len() as int) =~= inputs@);
    }
    acc
}

proof fn lemma_remove_front_contains(s: Seq<usize>, y: usize)
    requires
        s.len() > 0,
    ensures
        s.contains(y) <==> (y == s[0] || s.remove(0).contains(y)),
{
    assert(s.remove(0) =~= s.subrange(1, s.len() as int));
    if s.contains(y) {
        let i = choose|i: int| 0 <= i < s.len() && s[i] == y;
        if i > 0 {
            assert(s.remove(0)[i - 1] == y);
        }
    }
    if s.remove(0).contains(y) {
        let i = choose|i: int| 0 <= i < s.remove(0).len() && s.remove(0)[i] == y;
        assert(s[i + 1] == y);
    }
}

proof fn lemma_concat_contains(s1: Seq<usize>, s2: Seq<usize>, y: usize)
    ensures
        (s1 + s2).contains(y) <==> (s1.contains(y) || s2.contains(y)),
{
    if s1.contains(y) {
        let i = choose|i: int| 0 <= i < s1.len() && s1[i] == y;
        assert((s1 + s2)[i] == y);
    }
    if s2.contains(y) {
        let i = choose|i: int| 0 <= i < s2.len() && s2[i] == y;
        assert((s1 + s2)[s1.len() + i] == y);
    }
    if (s1 + s2).contains(y) {
        let i = choose|i: int| 0 <= i < (s1 + s2).len() && (s1 + s2)[i] == y;
        if i < s1.len() {
            assert(s1[i] == y);
        } else {
            assert(s2[i - s1.len()] == y);
        }
    }
}

/// Node `v` is stable under the generalized transfer `kfn`: its input-side
/// record is exactly the confluence of its inputs, and its output-side record
/// is a possible result of `kfn` on that input and the node's kill set, joined
/// with the node's gen set.
pub open spec fn node_stable<F: Fn(&FactSet, &FactSet) -> FactSet>(
    g: Graph,
    st: State,
    fwd: bool,
    may: bool,
    kfn: F,
    v: int,
) -> bool {
    &&& st.a_list(fwd)[v]@ == combine_spec(st, fwd, may, g.inputs_of(fwd, v))
    &&& exists|t: FactSet|
        #[trigger] call_ensures(kfn, (&st.a_list(fwd)[v], &st.kills@[v]), t) && st.b_list(fwd)[v]@
            == t@.union(st.gens@[v]@)
}

/// Every node of the graph is stable under the generalized transfer: no full
/// worklist pass over the converged state could change any record.
pub open spec fn is_fixpoint_kfn<F: Fn(&FactSet, &FactSet) -> FactSet>(
    g: Graph,
    st: State,
    fwd: bool,
    may: bool,
    kfn: F,
) -> bool {
    forall|v: int| 0 <= v < g.num_nodes() ==> node_stable(g, st, fwd, may, kfn, v)
}

/// The classic gen/kill transfer: `(a - kill) + gen`.
pub open spec fn transfer_spec(a: Set<u64>, kill: Set<u64>, gen: Set<u64>) -> Set<u64> {
    a.difference(kill).union(gen)
}

/// Node `v` is stable under the classic gen/kill transfer.
pub open spec fn node_stable_default(g: Graph, st: State, fwd: bool, may: bool, v: int) -> bool {
    &&& st.a_list(fwd)[v]@ == combine_spec(st, fwd, may, g.inputs_of(fwd, v))
    &&& st.b_list(fwd)[v]@ == transfer_spec(st.a_list(fwd)[v]@, st.kills@[v]@, st.gens@[v]@)
}

/// Every node is stable under the classic gen/kill transfer: the dataflow
/// equations of the analysis hold of the state.
pub open spec fn is_fixpoint(g: Graph, st: State, fwd: bool, may: bool) -> bool {
    forall|v: int| 0 <= v < g.num_nodes() ==> node_stable_default(g, st, fwd, may, v)
}

/// The records of node `v` as the convergence argument needs them: the
/// input-side record lies below the current confluence of its inputs, the
/// output-side record lies inside the fact universe, and the pair is either
/// still at bottom or related by one transfer application.
spec fn growth_inv<F: Fn(&FactSet, &FactSet) -> FactSet>(
    g: Graph,
    st: State,
    fwd: bool,
    may: bool,
    kfn: F,
    uni: Set<u64>,
    v: int,
) -> bool {
    &&& st.a_list(fwd)[v]@.subset_of(combine_spec(st, fwd, may, g.inputs_of(fwd, v)))
    &&& st.b_list(fwd)[v]@.subset_of(uni)
    &&& ((st.a_list(fwd)[v]@ == Set::<u64>::empty() && st.b_list(fwd)[v]@ == Set::<u64>::empty())
        || (exists|t: FactSet|
            #[trigger] call_ensures(kfn, (&st.a_list(fwd)[v], &st.kills@[v]), t) && st.b_list(
                fwd,
            )[v]@ == t@.union(st.gens@[v]@)))
}

/// The generalized entry point: runs the worklist engine with a caller-chosen
/// kill-combination function in place of plain set difference, spending at
/// most `fuel` worklist steps.
///
/// On `Some`, the returned state keeps the given gen and kill sets untouched
/// and satisfies the fixpoint equations of the chosen direction, mode and
/// transfer. `None` is returned only when the step budget ran out before the
/// worklist drained; for a monotone, reductive transfer on a bottom-started
/// state, `fuel_bound` is a budget at which that cannot happen and a result
/// is owed. For other transfers termination is the caller's obligation.
/// A bottom-started result is least: whenever the transfer implements a
/// monotone set function, the result lies below every solution of the
/// dataflow equations over the same gen and kill records.
pub fn analyze_kfn<D: Direction, M: Mode, F: Fn(&FactSet, &FactSet) -> FactSet>(
    g: &Graph,
    initial: State,
    dir: D,
    mode: M,
    kfn: F,
    fuel: u64,
) -> (r: Option<State>)
    requires
        g.wf(),
        initial.wf(g.num_nodes()),
        forall|a: &FactSet, k: &FactSet| #[trigger] call_requires(kfn, (a, k)),
    ensures
        r matches Some(st) ==> {
            &&& st.wf(g.num_nodes())
            &&& st.gens@ == initial.gens@
            &&& st.kills@ == initial.kills@
            &&& is_fixpoint_kfn(*g, st, dir.is_forward(), mode.is_may(), kfn)
        },
        g.num_nodes() == 0 ==> r is Some,
        fuel == 0 && g.num_nodes() > 0 ==> r is None,
        kfn_monotone(kfn) && kfn_reductive(kfn) && bottom_start(initial) && fuel as int
            >= fuel_bound(*g, initial, dir.is_forward()) ==> r is Some,
        r matches Some(st) ==> (bottom_start(initial) ==> forall|
            tf: spec_fn(Set<u64>, Set<u64>) -> Set<u64>,
            sol: State,
        |
            (kfn_implements(kfn, tf) && tf_monotone(tf) && #[trigger] tf_solution(
                *g,
                sol,
                dir.is_forward(),
                mode.is_may(),
                tf,
            ) && sol.gens@ == initial.gens@ && sol.kills@ == initial.kills@) ==> below(
                st,
                sol,
                dir.is_forward(),
                g.num_nodes(),
            )),
{
    let fwd = dir.forward();
    let ghost may = mode.is_may();
    let n: usize = g.node_count();
    let mut state = initial;
    let mut queue: Vec<usize> = Vec::new();
    let mut i: usize = 0;
    while i < n
        invariant
            i <= n,
            queue@.len() == i,
            forall|j: int|
                0 <= j < i ==> (#[trigger] queue@[j]) as int == if fwd {
                    j
                } else {
                    n as int - 1 - j
                },
            forall|j: int| 0 <= j < i ==> (#[trigger] queue@[j]) < n,
        decreases n - i,
    {
        if fwd {
            queue.push(i);
        } else {
            queue.push(n - 1 - i);
        }
        i += 1;
    }
    proof {
        assert forall|v: usize| v < n implies queue@.contains(v) by {
            if fwd {
                assert(queue@[v as int] == v);
            } else {
                assert(queue@[n as int - 1 - v as int] == v);
            }
        }
    }
    let mut fuel_left: u64 = fuel;
    let ghost uni = fact_universe(initial.gens@);
    let ghost cap = uni.len() as int;
    let ghost hyp = kfn_monotone(kfn) && kfn_reductive(kfn) && bottom_start(initial) && fuel as int
        >= fuel_bound(*g, initial, fwd);
    proof {
        lemma_gens_union_finite(initial.gens@, initial.gens@.len() as int);
        if hyp {
            assert forall|v: int| 0 <= v < n implies growth_inv(*g, state, fwd, may, kfn, uni, v) by {
                assert(state.ins@[v]@ == Set::<u64>::empty());
                assert(state.outs@[v]@ == Set::<u64>::empty());
            }
        }
        if bottom_start(initial) {
            assert forall|tf: spec_fn(Set<u64>, Set<u64>) -> Set<u64>, sol: State|
                (kfn_implements(kfn, tf) && tf_monotone(tf) && #[trigger] tf_solution(
                    *g,
                    sol,
                    fwd,
                    may,
                    tf,
                ) && sol.gens@ == initial.gens@ && sol.kills@ == initial.kills@) implies below(
                state,
                sol,
                fwd,
                n as int,
            ) by {
                assert forall|v: int|
                    0 <= v < n implies (#[trigger] state.a_list(fwd)[v])@.subset_of(
                    sol.a_list(fwd)[v]@,
                ) && state.b_list(fwd)[v]@.subset_of(sol.b_list(fwd)[v]@) by {
                    assert(state.ins@[v]@ == Set::<u64>::empty());
                    assert(state.outs@[v]@ == Set::<u64>::empty());
                }
                lemma_below_intro(state, sol, fwd, n as int);
            }
        }
    }
    while queue.len() > 0
        invariant
            g.wf(),
            n == g.num_nodes(),
            state.wf(n as int),
            state.gens@ == initial.gens@,
            state.kills@ == initial.kills@,
            forall|j: int| 0 <= j < queue@.len() ==> (#[trigger] queue@[j]) < n,
            forall|a: &FactSet, k: &FactSet| #[trigger] call_requires(kfn, (a, k)),
            fwd == dir.is_forward(),
            may == mode.is_may(),
            fuel_left <= fuel,
            fuel == 0 && n > 0 ==> queue@.len() > 0,
            uni == fact_universe(initial.gens@),
            cap == uni.len() as int,
            uni.finite(),
            hyp == (kfn_monotone(kfn) && kfn_reductive(kfn) && bottom_start(initial) && fuel as int
                >= fuel_bound(*g, initial, fwd)),
            hyp ==> forall|v: int|
                0 <= v < n ==> #[trigger] growth_inv(*g, state, fwd, may, kfn, uni, v),
            hyp ==> fuel_left as int >= queue@.len() + phi_sum(*g, state, fwd, cap, n as int),
            bottom_start(initial) ==> forall|
                tf: spec_fn(Set<u64>, Set<u64>) -> Set<u64>,
                sol: State,
            |
                (kfn_implements(kfn, tf) && tf_monotone(tf) && #[trigger] tf_solution(
                    *g,
                    sol,
                    fwd,
                    may,
                    tf,
                ) && sol.gens@ == initial.gens@ && sol.kills@ == initial.kills@) ==> below(
                    state,
                    sol,
                    fwd,
                    n as int,
                ),
            forall|v: usize|
                v < n && !(#[trigger] queue@.contains(v)) ==> node_stable(
                    *g,
                    state,
                    fwd,
                    may,
                    kfn,
                    v as int,
                ),
        decreases fuel_left,
    {
        if fuel_left == 0 {
            proof {
                assert(queue@[0] < n);
                if hyp {
                    assert forall|w: int| 0 <= w < n implies state.b_list(fwd)[w]@.len() <= cap by {
                        assert(growth_inv(*g, state, fwd, may, kfn, uni, w));
                        lemma_len_subset(state.b_list(fwd)[w]@, uni);
                    }
                    lemma_phi_sum_nonneg(*g, state, fwd, cap, n as int);
                    assert(false);
                }
            }
            return None;
        }
        fuel_left = fuel_left - 1;
        let ghost q0 = queue@;
        let node = queue.remove(0);
        let ghost q1 = queue@;
        let acc = combine_inputs(g, &state, fwd, &mode, node);
        let ghost acc_g = acc;
        let t = kfn(&acc, state.kill(node));
        let ghost t_g = t;
        let b = t.union(state.gen(node));
        let ghost b_g = b;
        let ghost st0 = state;
        state.set_a(fwd, node, acc);
        let ghost st1 = state;
        let changed = !b.set_eq(state.get_b(fwd, node));
        proof {
            if hyp {
                let inputs_n = g.inputs_of(fwd, node as int);
                assert forall|k: int|
                    0 <= k < inputs_n.len() implies st0.b_list(fwd)[
                #[trigger] inputs_n[k] as int]@.subset_of(uni) by {
                    assert(inputs_n[k] < n);
                    assert(growth_inv(*g, st0, fwd, may, kfn, uni, inputs_n[k] as int));
                }
                lemma_combine_bounded(st0, fwd, may, inputs_n, uni);
                assert(acc_g@.subset_of(uni));
                assert(call_ensures(kfn, (&acc_g, &st0.kills@[node as int]), t_g));
                assert(t_g@.subset_of(acc_g@));
                lemma_gen_in_universe(initial.gens@, node as int, initial.gens@.len() as int);
                assert(b_g@.subset_of(uni));
                assert(growth_inv(*g, st0, fwd, may, kfn, uni, node as int));
                if !(st0.a_list(fwd)[node as int]@ == Set::<u64>::empty() && st0.b_list(fwd)[node as int]@
                    == Set::<u64>::empty()) {
                    let t_old = choose|t_old: FactSet|
                        call_ensures(kfn, (&st0.a_list(fwd)[node as int], &st0.kills@[node as int]), t_old)
                            && st0.b_list(fwd)[node as int]@ == t_old@.union(st0.gens@[node as int]@);
                    assert(st0.a_list(fwd)[node as int]@.subset_of(acc_g@));
                    assert(t_old@.subset_of(t_g@));
                }
                assert(st0.b_list(fwd)[node as int]@.subset_of(b_g@));
            }
        }
        if changed {
            state.set_b(fwd, node, b);
            let ghost st2 = state;
            let aff: &Vec<usize> = g.affected(fwd, node);
            let mut k2: usize = 0;
            while k2 < aff.len()
                invariant
                    g.wf(),
                    n == g.num_nodes(),
                    node < n,
                    aff@ == g.affected_of(fwd, node as int),
                    k2 <= aff@.len(),
                    queue@ == q1 + aff@.take(k2 as int),
                    forall|j: int| 0 <= j < q1.len() ==> (#[trigger] q1[j]) < n,
                    forall|j: int| 0 <= j < queue@.len() ==> (#[trigger] queue@[j]) < n,
                decreases aff@.len() - k2,
            {
                proof {
                    assert(g.affected_of(fwd, node as int)[k2 as int] < n);
                }
                queue.push(aff[k2]);
                proof {
                    assert(queue@ =~= q1 + aff@.take(k2 as int + 1));
                }
                k2 += 1;
            }
            proof {
                assert(aff@.take(aff@.len() as int) =~= aff@);
                assert(queue@ == q1 + aff@);
                assert forall|v: usize|
                    v < n && !(queue@.contains(v)) implies node_stable(
                    *g,
                    state,
                    fwd,
                    may,
                    kfn,
                    v as int,
                ) by {
                    lemma_concat_contains(q1, aff@, v);
                    let inputs = g.inputs_of(fwd, v as int);
                    if v == node {
                        lemma_inputs_affected(*g, fwd, node, node);
                        assert(!inputs.contains(node));
                        assert forall|k: int|
                            0 <= k < inputs.len() implies st0.b_list(fwd)[
                        #[trigger] inputs[k] as int] == st2.b_list(fwd)[inputs[k] as int] by {}
                        lemma_combine_congruence(st0, st2, fwd, may, inputs);
                        assert(st2.a_list(fwd)[v as int] == acc_g);
                        assert(call_ensures(kfn, (&acc_g, &st2.kills@[v as int]), t_g));
                        assert(st2.b_list(fwd)[v as int]@ == t_g@.union(st2.gens@[v as int]@));
                    } else {
                        lemma_remove_front_contains(q0, v);
                        assert(!q0.contains(v));
                        assert(node_stable(*g, st0, fwd, may, kfn, v as int));
                        lemma_inputs_affected(*g, fwd, node, v);
                        assert(!inputs.contains(node));
                        assert forall|k: int|
                            0 <= k < inputs.len() implies st0.b_list(fwd)[
                        #[trigger] inputs[k] as int] == st2.b_list(fwd)[inputs[k] as int] by {}
                        lemma_combine_congruence(st0, st2, fwd, may, inputs);
                        let t2 = choose|t2: FactSet|
                            call_ensures(kfn, (&st0.a_list(fwd)[v as int], &st0.kills@[v as int]), t2)
                                && st0.b_list(fwd)[v as int]@ == t2@.union(st0.gens@[v as int]@);
                        assert(call_ensures(kfn, (&state.a_list(fwd)[v as int], &state.kills@[v as int]), t2));
                    }
                }
                if hyp {
                    assert(st2.b_list(fwd) == st1.b_list(fwd).update(node as int, b_g));
                    assert forall|v: int|
                        0 <= v < n implies #[trigger] growth_inv(*g, state, fwd, may, kfn, uni, v) by {
                        let inputs = g.inputs_of(fwd, v);
                        assert forall|k: int|
                            0 <= k < inputs.len() implies st0.b_list(fwd)[
                        #[trigger] inputs[k] as int]@.subset_of(st2.b_list(fwd)[inputs[k] as int]@) by {
                            if inputs[k] as int == node as int {
                                assert(st2.b_list(fwd)[node as int] == b_g);
                            } else {
                                assert(st2.b_list(fwd)[inputs[k] as int] == st0.b_list(fwd)[inputs[k] as int]);
                            }
                        }
                        lemma_combine_monotone(st0, st2, fwd, may, inputs);
                        if v == node as int {
                            assert(st2.a_list(fwd)[v] == acc_g);
                            assert(acc_g@ == combine_spec(st0, fwd, may, inputs));
                            assert(st2.b_list(fwd)[v] == b_g);
                            assert(call_ensures(kfn, (&acc_g, &st2.kills@[v]), t_g));
                        } else {
                            assert(growth_inv(*g, st0, fwd, may, kfn, uni, v));
                            assert(st2.a_list(fwd)[v] == st0.a_list(fwd)[v]);
                            assert(st2.b_list(fwd)[v] == st0.b_list(fwd)[v]);
                            if !(st0.a_list(fwd)[v]@ == Set::<u64>::empty() && st0.b_list(fwd)[v]@
                                == Set::<u64>::empty()) {
                                let tv = choose|tv: FactSet|
                                    call_ensures(kfn, (&st0.a_list(fwd)[v], &st0.kills@[v]), tv)
                                        && st0.b_list(fwd)[v]@ == tv@.union(st0.gens@[v]@);
                                assert(call_ensures(kfn, (&st2.a_list(fwd)[v], &st2.kills@[v]), tv));
                            }
                        }
                    }
                    lemma_len_subset(b_g@, uni);
                    lemma_strict_subset_len(st0.b_list(fwd)[node as int]@, b_g@);
                    assert forall|w: int|
                        0 <= w < n && w != node as int implies st0.b_list(fwd)[w]@.len() == st2.b_list(
                        fwd,
                    )[w]@.len() by {
                        assert(st2.b_list(fwd)[w] == st0.b_list(fwd)[w]);
                    }
                    lemma_phi_sum_update(*g, st0, st2, fwd, cap, node as int, n as int);
                    let l1 = st0.b_list(fwd)[node as int]@.len() as int;
                    let l2 = st2.b_list(fwd)[node as int]@.len() as int;
                    let wgt = aff_weight(*g, fwd, node as int);
                    assert((l1 - l2) * wgt <= -wgt) by (nonlinear_arith)
                        requires
                            l1 - l2 <= -1,
                            wgt >= 1,
                    ;
                    assert(queue@.len() == q1.len() + aff@.len());
                    assert(fuel_left as int >= queue@.len() + phi_sum(*g, state, fwd, cap, n as int));
                }
                if bottom_start(initial) {
                    assert forall|tf: spec_fn(Set<u64>, Set<u64>) -> Set<u64>, sol: State|
                        (kfn_implements(kfn, tf) && tf_monotone(tf) && #[trigger] tf_solution(
                            *g,
                            sol,
                            fwd,
                            may,
                            tf,
                        ) && sol.gens@ == initial.gens@ && sol.kills@ == initial.kills@) implies below(
                        state,
                        sol,
                        fwd,
                        n as int,
                    ) by {
                        assert(below(st0, sol, fwd, n as int));
                        let inputs = g.inputs_of(fwd, node as int);
                        assert forall|k: int|
                            0 <= k < inputs.len() implies st0.b_list(fwd)[
                        #[trigger] inputs[k] as int]@.subset_of(sol.b_list(fwd)[inputs[k] as int]@) by {
                            assert(inputs[k] < n);
                            assert(st0.a_list(fwd)[inputs[k] as int]@.subset_of(
                                sol.a_list(fwd)[inputs[k] as int]@,
                            ));
                        }
                        lemma_combine_monotone(st0, sol, fwd, may, inputs);
                        assert(sol.a_list(fwd)[node as int]@ == combine_spec(sol, fwd, may, inputs));
                        assert(acc_g@.subset_of(sol.a_list(fwd)[node as int]@));
                        assert(call_ensures(kfn, (&acc_g, &st0.kills@[node as int]), t_g));
                        assert(t_g@ == tf(acc_g@, st0.kills@[node as int]@));
                        assert(tf(acc_g@, st0.kills@[node as int]@).subset_of(
                            tf(sol.a_list(fwd)[node as int]@, st0.kills@[node as int]@),
                        ));
                        assert(sol.kills@[node as int] == initial.kills@[node as int]);
                        assert(sol.b_list(fwd)[node as int]@ == tf(
                            sol.a_list(fwd)[node as int]@,
                            sol.kills@[node as int]@,
                        ).union(sol.gens@[node as int]@));
                        assert(b_g@.subset_of(sol.b_list(fwd)[node as int]@));
                        assert forall|v: int|
                            0 <= v < n implies (#[trigger] state.a_list(fwd)[v])@.subset_of(
                            sol.a_list(fwd)[v]@,
                        ) && state.b_list(fwd)[v]@.subset_of(sol.b_list(fwd)[v]@) by {
                            if v == node as int {
                                assert(state.a_list(fwd)[v] == acc_g);
                                assert(state.b_list(fwd)[v] == b_g);
                            } else {
                                assert(state.a_list(fwd)[v] == st0.a_list(fwd)[v]);
                                assert(state.b_list(fwd)[v] == st0.b_list(fwd)[v]);
                                assert(st0.a_list(fwd)[v]@.subset_of(sol.a_list(fwd)[v]@));
                            }
                        }
                        lemma_below_intro(state, sol, fwd, n as int);
                    }
                }
            }
        } else {
            proof {
                assert forall|v: usize|
                    v < n && !(queue@.contains(v)) implies node_stable(
                    *g,
                    state,
                    fwd,
                    may,
                    kfn,
                    v as int,
                ) by {
                    let inputs = g.inputs_of(fwd, v as int);
                    assert(st1.b_list(fwd) == st0.b_list(fwd));
                    assert forall|k: int|
                        0 <= k < inputs.len() implies st0.b_list(fwd)[#[trigger] inputs[k] as int]
                            == st1.b_list(fwd)[inputs[k] as int] by {}
                    lemma_combine_congruence(st0, st1, fwd, may, inputs);
                    if v == node {
                        assert(st1.a_list(fwd)[v as int] == acc_g);
                        assert(st1.b_list(fwd)[v as int]@ == b_g@);
                        assert(call_ensures(kfn, (&acc_g, &st1.kills@[v as int]), t_g));
                        assert(st1.b_list(fwd)[v as int]@ == t_g@.union(st1.gens@[v as int]@));
                    } else {
                        lemma_remove_front_contains(q0, v);
                        assert(!q0.contains(v));
                        assert(node_stable(*g, st0, fwd, may, kfn, v as int));
                        let t2 = choose|t2: FactSet|
                            call_ensures(kfn, (&st0.a_list(fwd)[v as int], &st0.kills@[v as int]), t2)
                                && st0.b_list(fwd)[v as int]@ == t2@.union(st0.gens@[v as int]@);
                        assert(call_ensures(kfn, (&state.a_list(fwd)[v as int], &state.kills@[v as int]), t2));
                    }
                }
                if hyp {
                    assert(st1.b_list(fwd) == st0.b_list(fwd));
                    assert forall|v: int|
                        0 <= v < n implies #[trigger] growth_inv(*g, state, fwd, may, kfn, uni, v) by {
                        let inputs = g.inputs_of(fwd, v);
                        assert forall|k: int|
                            0 <= k < inputs.len() implies st0.b_list(fwd)[
                        #[trigger] inputs[k] as int]@.subset_of(st1.b_list(fwd)[inputs[k] as int]@) by {}
                        lemma_combine_monotone(st0, st1, fwd, may, inputs);
                        if v == node as int {
                            assert(st1.a_list(fwd)[v] == acc_g);
                            assert(acc_g@ == combine_spec(st0, fwd, may, inputs));
                            assert(st1.b_list(fwd)[v]@ == b_g@);
                            assert(call_ensures(kfn, (&acc_g, &st1.kills@[v]), t_g));
                        } else {
                            assert(growth_inv(*g, st0, fwd, may, kfn, uni, v));
                            assert(st1.a_list(fwd)[v] == st0.a_list(fwd)[v]);
                            assert(st1.b_list(fwd)[v] == st0.b_list(fwd)[v]);
                            if !(st0.a_list(fwd)[v]@ == Set::<u64>::empty() && st0.b_list(fwd)[v]@
                                == Set::<u64>::empty()) {
                                let tv = choose|tv: FactSet|
                                    call_ensures(kfn, (&st0.a_list(fwd)[v], &st0.kills@[v]), tv)
                                        && st0.b_list(fwd)[v]@ == tv@.union(st0.gens@[v]@);
                                assert(call_ensures(kfn, (&st1.a_list(fwd)[v], &st1.kills@[v]), tv));
                            }
                        }
                    }
                    assert forall|w: int|
                        0 <= w < n implies st0.b_list(fwd)[w]@.len() == st1.b_list(fwd)[w]@.len() by {}
                    lemma_phi_sum_congruence(*g, st0, st1, fwd, cap, n as int);
                    assert(fuel_left as int >= queue@.len() + phi_sum(*g, state, fwd, cap, n as int));
                }
                if bottom_start(initial) {
                    assert forall|tf: spec_fn(Set<u64>, Set<u64>) -> Set<u64>, sol: State|
                        (kfn_implements(kfn, tf) && tf_monotone(tf) && #[trigger] tf_solution(
                            *g,
                            sol,
                            fwd,
                            may,
                            tf,
                        ) && sol.gens@ == initial.gens@ && sol.kills@ == initial.kills@) implies below(
                        state,
                        sol,
                        fwd,
                        n as int,
                    ) by {
                        assert(below(st0, sol, fwd, n as int));
                        let inputs = g.inputs_of(fwd, node as int);
                        assert forall|k: int|
                            0 <= k < inputs.len() implies st0.b_list(fwd)[
                        #[trigger] inputs[k] as int]@.subset_of(sol.b_list(fwd)[inputs[k] as int]@) by {
                            assert(inputs[k] < n);
                            assert(st0.a_list(fwd)[inputs[k] as int]@.subset_of(
                                sol.a_list(fwd)[inputs[k] as int]@,
                            ));
                        }
                        lemma_combine_monotone(st0, sol, fwd, may, inputs);
                        assert(sol.a_list(fwd)[node as int]@ == combine_spec(sol, fwd, may, inputs));
                        assert(acc_g@.subset_of(sol.a_list(fwd)[node as int]@));
                        assert forall|v: int|
                            0 <= v < n implies (#[trigger] state.a_list(fwd)[v])@.subset_of(
                            sol.a_list(fwd)[v]@,
                        ) && state.b_list(fwd)[v]@.subset_of(sol.b_list(fwd)[v]@) by {
                            if v == node as int {
                                assert(state.a_list(fwd)[v] == acc_g);
                                assert(state.b_list(fwd)[v] == st0.b_list(fwd)[v]);
                                assert(st0.a_list(fwd)[v]@.subset_of(sol.a_list(fwd)[v]@));
                            } else {
                                assert(state.a_list(fwd)[v] == st0.a_list(fwd)[v]);
                                assert(state.b_list(fwd)[v] == st0.b_list(fwd)[v]);
                                assert(st0.a_list(fwd)[v]@.subset_of(sol.a_list(fwd)[v]@));
                            }
                        }
                        lemma_below_intro(state, sol, fwd, n as int);
                    }
                }
            }
        }
    }
    proof {
        assert forall|v: int| 0 <= v < g.num_nodes() implies node_stable(
            *g,
            state,
            fwd,
            may,
            kfn,
            v,
        ) by {
            assert(!queue@.contains(v as usize));
        }
    }
    Some(state)
}

/// The convenience entry point: classic gen/kill dataflow analysis, with the
/// transfer `out = (in - kill) + gen` resolved by direction, spending at most
/// `fuel` worklist steps.
///
/// On `Some`, the returned state keeps the given gen and kill sets untouched
/// and satisfies the dataflow equations exactly: every node's input-side
/// record is the confluence of its inputs' output-side records, and every
/// node's output-side record is the gen/kill transfer of its input-side
/// record. `None` is returned only when the step budget ran out first, which
/// on a bottom-started state cannot happen at or above `fuel_bound`: the
/// gen/kill transfer is monotone and reductive, so a result is owed there.
/// A bottom-started result is also the least solution: it lies below every
/// state that satisfies the same equations over the same gen and kill
/// records, which fixes the result's fact sets uniquely.
pub fn analyze<D: Direction, M: Mode>(
    g: &Graph,
    initial: State,
    dir: D,
    mode: M,
    fuel: u64,
) -> (r: Option<State>)
    requires
        g.wf(),
        initial.wf(g.num_nodes()),
    ensures
        r matches Some(st) ==> {
            &&& st.wf(g.num_nodes())
            &&& st.gens@ == initial.gens@
            &&& st.kills@ == initial.kills@
            &&& is_fixpoint(*g, st, dir.is_forward(), mode.is_may())
        },
        g.num_nodes() == 0 ==> r is Some,
        fuel == 0 && g.num_nodes() > 0 ==> r is None,
        bottom_start(initial) && fuel as int >= fuel_bound(*g, initial, dir.is_forward())
            ==> r is Some,
        r matches Some(st) ==> (bottom_start(initial) ==> forall|sol: State|
            (#[trigger] is_fixpoint(*g, sol, dir.is_forward(), mode.is_may()) && sol.gens@
                == initial.gens@ && sol.kills@ == initial.kills@) ==> below(
                st,
                sol,
                dir.is_forward(),
                g.num_nodes(),
            )),
{
    let ghost fwd = dir.is_forward();
    let ghost may = mode.is_may();
    let kfn = |a: &FactSet, k: &FactSet| -> (res: FactSet)
        ensures
            res@ == a@.difference(k@),
        { a.difference(k) };
    proof {
        assert forall|a: FactSet, k: FactSet, t: FactSet| #[trigger]
            call_ensures(kfn, (&a, &k), t) implies t@.subset_of(a@) by {
            assert(t@ == a@.difference(k@));
        }
        assert(kfn_reductive(kfn));
        assert forall|a1: FactSet, a2: FactSet, k: FactSet, t1: FactSet, t2: FactSet|
            #![trigger call_ensures(kfn, (&a1, &k), t1), call_ensures(kfn, (&a2, &k), t2)]
            (a1@.subset_of(a2@) && call_ensures(kfn, (&a1, &k), t1) && call_ensures(
                kfn,
                (&a2, &k),
                t2,
            )) implies t1@.subset_of(t2@) by {
            assert(t1@ == a1@.difference(k@));
            assert(t2@ == a2@.difference(k@));
        }
        assert(kfn_monotone(kfn));
    }
    let r = analyze_kfn(g, initial, dir, mode, kfn, fuel);
    proof {
        if r is Some {
            let st = r->Some_0;
            assert forall|v: int| 0 <= v < g.num_nodes() implies node_stable_default(
                *g,
                st,
                fwd,
                may,
                v,
            ) by {
                assert(node_stable(*g, st, fwd, may, kfn, v));
                let t = choose|t: FactSet|
                    #[trigger] call_ensures(kfn, (&st.a_list(fwd)[v], &st.kills@[v]), t)
                        && st.b_list(fwd)[v]@ == t@.union(st.gens@[v]@);
                assert(t@ == st.a_list(fwd)[v]@.difference(st.kills@[v]@));
            }
            if bottom_start(initial) {
                let tf0 = |aa: Set<u64>, kk: Set<u64>| aa.difference(kk);
                assert(kfn_implements(kfn, tf0)) by {
                    assert forall|a: FactSet, k: FactSet, t: FactSet| #[trigger]
                        call_ensures(kfn, (&a, &k), t) implies t@ == tf0(a@, k@) by {
                        assert(t@ == a@.difference(k@));
                    }
                }
                assert(tf_monotone(tf0)) by {
                    assert forall|a1: Set<u64>, a2: Set<u64>, k: Set<u64>|
                        #![trigger tf0(a1, k), tf0(a2, k)]
                        a1.subset_of(a2) implies tf0(a1, k).subset_of(tf0(a2, k)) by {}
                }
                assert forall|sol: State|
                    (#[trigger] is_fixpoint(*g, sol, fwd, may) && sol.gens@ == initial.gens@
                        && sol.kills@ == initial.kills@) implies below(
                    st,
                    sol,
                    fwd,
                    g.num_nodes(),
                ) by {
                    assert(tf_solution(*g, sol, fwd, may, tf0)) by {
                        assert forall|v: int|
                            0 <= v < g.num_nodes() implies (#[trigger] sol.a_list(fwd)[v])@
                                == combine_spec(sol, fwd, may, g.inputs_of(fwd, v)) && sol.b_list(
                            fwd,
                        )[v]@ == tf0(sol.a_list(fwd)[v]@, sol.kills@[v]@).union(sol.gens@[v]@) by {
                            assert(node_stable_default(*g, sol, fwd, may, v));
                        }
                    }
                }
            }
        }
    }
    r
}

/// Checks, without writing anything, that one more full worklist pass over
/// every node would leave the state unchanged: the converged state of
/// `analyze` always passes this test.
pub fn check_stable<D: Direction, M: Mode>(g: &Graph, st: &State, dir: D, mode: M) -> (r: bool)
    requires
        g.wf(),
        st.wf(g.num_nodes()),
    ensures
        r == is_fixpoint(*g, *st, dir.is_forward(), mode.is_may()),
{
    let fwd = dir.forward();
    let ghost may = mode.is_may();
    let n: usize = g.node_count();
    let mut v: usize = 0;
    while v < n
        invariant
            g.wf(),
            st.wf(n as int),
            n == g.num_nodes(),
            fwd == dir.is_forward(),
            may == mode.is_may(),
            v <= n,
            forall|w: int| 0 <= w < v ==> node_stable_default(*g, *st, fwd, may, w),
        decreases n - v,
    {
        let acc = combine_inputs(g, st, fwd, &mode, v);
        if !acc.set_eq(st.get_a(fwd, v)) {
            proof {
                assert(!node_stable_default(*g, *st, fwd, may, v as int));
            }
            return false;
        }
        let b = acc.difference(st.kill(v)).union(st.gen(v));
        if !b.set_eq(st.get_b(fwd, v)) {
            proof {
                assert(!node_stable_default(*g, *st, fwd, may, v as int));
            }
            return false;
        }
        v += 1;
    }
    true
}

/// The result adapter: converts the converged state into a client-defined
/// result value, invoked once after the worklist drains.
pub trait Analysis: Sized {
    /// Builds the analysis result from the final state.
    fn from(state: State) -> Self;
}

impl Analysis for State {
    fn from(state: State) -> Self {
        state
    }
}

} // verus!
