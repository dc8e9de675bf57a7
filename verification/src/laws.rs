use vstd::prelude::*;

use crate::engine::combine_spec;
use crate::termination::below;
use crate::engine::is_fixpoint;
use crate::engine::node_stable_default;
use crate::engine::op_spec;
use crate::engine::transfer_spec;
use crate::graph::Graph;
use crate::state::State;

verus! {

/// A converged state is a fixed point of the update rule: recomputing any
/// node's records from the state gives back exactly what is stored, so one
/// more full worklist pass over every node changes nothing.
pub proof fn lemma_fixpoint_repass_no_change(g: Graph, st: State, fwd: bool, may: bool, v: int)
    requires
        is_fixpoint(g, st, fwd, may),
        0 <= v < g.num_nodes(),
    ensures
        combine_spec(st, fwd, may, g.inputs_of(fwd, v)) == st.a_list(fwd)[v]@,
        transfer_spec(
            combine_spec(st, fwd, may, g.inputs_of(fwd, v)),
            st.kills@[v]@,
            st.gens@[v]@,
        ) == st.b_list(fwd)[v]@,
{
    assert(node_stable_default(g, st, fwd, may, v));
}

/// At a converged state, a node with exactly the two inputs `b` and `c` holds
/// as its input-side record the mode's combination of their two output-side
/// records: the union under May confluence, the intersection under Must.
pub proof fn lemma_two_input_confluence(
    g: Graph,
    st: State,
    fwd: bool,
    may: bool,
    b: usize,
    c: usize,
    d: usize,
)
    requires
        is_fixpoint(g, st, fwd, may),
        0 <= (d as int) < g.num_nodes(),
        g.inputs_of(fwd, d as int) == seq![b, c],
    ensures
        st.a_list(fwd)[d as int]@ == op_spec(
            may,
            st.b_list(fwd)[b as int]@,
            st.b_list(fwd)[c as int]@,
        ),
{
    assert(node_stable_default(g, st, fwd, may, d as int));
    let inputs = g.inputs_of(fwd, d as int);
    assert(inputs.drop_last() =~= seq![b]);
    assert(inputs.last() == c);
    assert(combine_spec(st, fwd, may, seq![b]) == st.b_list(fwd)[b as int]@);
}

proof fn lemma_combine_b_eq(
    st1: State,
    f1: bool,
    st2: State,
    f2: bool,
    may: bool,
    inputs: Seq<usize>,
)
    requires
        st1.b_list(f1) == st2.b_list(f2),
    ensures
        combine_spec(st1, f1, may, inputs) == combine_spec(st2, f2, may, inputs),
    decreases inputs.len(),
{
    if inputs.len() <= 1 {
    } else {
        lemma_combine_b_eq(st1, f1, st2, f2, may, inputs.drop_last());
    }
}

proof fn lemma_node_symmetry(g: Graph, st: State, may: bool, v: int)
    ensures
        node_stable_default(g, st, false, may, v) <==> node_stable_default(
            g.transposed(),
            st.swapped(),
            true,
            may,
            v,
        ),
{
    let gt = g.transposed();
    let ss = st.swapped();
    assert(gt.inputs_of(true, v) == g.inputs_of(false, v));
    assert(ss.a_list(true) == st.a_list(false));
    assert(ss.b_list(true) == st.b_list(false));
    lemma_combine_b_eq(st, false, ss, true, may, g.inputs_of(false, v));
}

/// Direction symmetry: a state is a backward fixed point of a graph exactly
/// when the state with `in` and `out` exchanged is a forward fixed point of
/// the graph with every edge reversed, under the same gen/kill sets and the
/// same confluence mode.
pub proof fn lemma_direction_symmetry(g: Graph, st: State, may: bool)
    requires
        g.wf(),
    ensures
        is_fixpoint(g, st, false, may) <==> is_fixpoint(g.transposed(), st.swapped(), true, may),
{
    let gt = g.transposed();
    let ss = st.swapped();
    assert(gt.num_nodes() == g.num_nodes());
    if is_fixpoint(g, st, false, may) {
        assert forall|v: int| 0 <= v < gt.num_nodes() implies node_stable_default(
            gt,
            ss,
            true,
            may,
            v,
        ) by {
            assert(node_stable_default(g, st, false, may, v));
            lemma_node_symmetry(g, st, may, v);
        }
    }
    if is_fixpoint(gt, ss, true, may) {
        assert forall|v: int| 0 <= v < g.num_nodes() implies node_stable_default(
            g,
            st,
            false,
            may,
            v,
        ) by {
            assert(node_stable_default(gt, ss, true, may, v));
            lemma_node_symmetry(g, st, may, v);
        }
    }
}

/// A node with no inputs and an empty gen set stabilizes to empty records:
/// its input side is the empty confluence, and its output side is what the
/// transfer makes of an empty input and an empty gen set. This covers both a
/// single-node graph and a node in no way connected to the rest of its graph.
pub proof fn lemma_isolated_node(g: Graph, st: State, fwd: bool, may: bool, v: int)
    requires
        is_fixpoint(g, st, fwd, may),
        0 <= v < g.num_nodes(),
        g.inputs_of(fwd, v).len() == 0,
        st.gens@[v]@ == Set::<u64>::empty(),
    ensures
        st.a_list(fwd)[v]@ == Set::<u64>::empty(),
        st.b_list(fwd)[v]@ == Set::<u64>::empty(),
{
    assert(node_stable_default(g, st, fwd, may, v));
    assert(st.b_list(fwd)[v]@ =~= Set::<u64>::empty());
}

/// The pointwise order on states is antisymmetric: two states that lie below
/// each other hold the same fact sets at every node. Together with the
/// engine's leastness guarantee this determines the result of a converged
/// bottom-started run up to its fact sets: any two such runs over the same
/// gen/kill records agree, and a backward run agrees with the forward run of
/// the edge-reversed graph with the in/out roles exchanged.
pub proof fn lemma_below_antisymmetric(s1: State, s2: State, fwd: bool, n: int)
    requires
        below(s1, s2, fwd, n),
        below(s2, s1, fwd, n),
    ensures
        forall|v: int| 0 <= v < n ==> (#[trigger] s1.a_list(fwd)[v])@ == s2.a_list(fwd)[v]@,
        forall|v: int| 0 <= v < n ==> (#[trigger] s1.b_list(fwd)[v])@ == s2.b_list(fwd)[v]@,
{
    assert forall|v: int|
        0 <= v < n implies (#[trigger] s1.a_list(fwd)[v])@ == s2.a_list(fwd)[v]@ by {
        assert(s1.a_list(fwd)[v]@.subset_of(s2.a_list(fwd)[v]@));
        assert(s2.a_list(fwd)[v]@.subset_of(s1.a_list(fwd)[v]@));
        assert(s1.a_list(fwd)[v]@ =~= s2.a_list(fwd)[v]@);
    }
    assert forall|v: int|
        0 <= v < n implies (#[trigger] s1.b_list(fwd)[v])@ == s2.b_list(fwd)[v]@ by {
        assert(s1.a_list(fwd)[v]@.subset_of(s2.a_list(fwd)[v]@));
        assert(s2.a_list(fwd)[v]@.subset_of(s1.a_list(fwd)[v]@));
        assert(s1.b_list(fwd)[v]@ =~= s2.b_list(fwd)[v]@);
    }
}

/// Direction symmetry of converged runs: a least backward fixed point of a
/// graph and a least forward fixed point of the edge-reversed graph, over the
/// same gen and kill records, hold the same fact sets with the roles of `in`
/// and `out` exchanged at every node. The two leastness hypotheses are what
/// the engine's contract gives for bottom-started runs.
pub proof fn lemma_direction_symmetry_results(g: Graph, rb: State, rf: State, may: bool, n: int)
    requires
        g.wf(),
        n == g.num_nodes(),
        is_fixpoint(g, rb, false, may),
        is_fixpoint(g.transposed(), rf, true, may),
        rb.gens@ == rf.gens@,
        rb.kills@ == rf.kills@,
        forall|sol: State|
            (#[trigger] is_fixpoint(g, sol, false, may) && sol.gens@ == rb.gens@ && sol.kills@
                == rb.kills@) ==> below(rb, sol, false, n),
        forall|sol: State|
            (#[trigger] is_fixpoint(g.transposed(), sol, true, may) && sol.gens@ == rf.gens@
                && sol.kills@ == rf.kills@) ==> below(rf, sol, true, n),
    ensures
        forall|v: int| 0 <= v < n ==> (#[trigger] rb.ins@[v])@ == rf.outs@[v]@,
        forall|v: int| 0 <= v < n ==> (#[trigger] rb.outs@[v])@ == rf.ins@[v]@,
{
    lemma_direction_symmetry(g, rf.swapped(), may);
    assert(rf.swapped().swapped() == rf);
    assert(is_fixpoint(g, rf.swapped(), false, may));
    assert(below(rb, rf.swapped(), false, n));
    lemma_direction_symmetry(g, rb, may);
    assert(is_fixpoint(g.transposed(), rb.swapped(), true, may));
    assert(below(rf, rb.swapped(), true, n));
    assert forall|v: int| 0 <= v < n implies (#[trigger] rb.ins@[v])@ == rf.outs@[v]@ by {
        assert(rb.a_list(false)[v]@.subset_of(rf.swapped().a_list(false)[v]@));
        assert(rf.a_list(true)[v]@.subset_of(rb.swapped().a_list(true)[v]@));
        assert(rb.ins@[v]@ =~= rf.outs@[v]@);
    }
    assert forall|v: int| 0 <= v < n implies (#[trigger] rb.outs@[v])@ == rf.ins@[v]@ by {
        assert(rb.a_list(false)[v]@.subset_of(rf.swapped().a_list(false)[v]@));
        assert(rf.a_list(true)[v]@.subset_of(rb.swapped().a_list(true)[v]@));
        assert(rb.outs@[v]@ =~= rf.ins@[v]@);
    }
}

} // verus!
