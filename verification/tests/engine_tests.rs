use dataflow::analyze;
use dataflow::analyze_kfn;
use dataflow::check_stable;
use dataflow::Analysis;
use dataflow::Backward;
use dataflow::FactSet;
use dataflow::Forward;
use dataflow::Graph;
use dataflow::May;
use dataflow::Must;
use dataflow::State;

const FUEL: u64 = 10_000;

fn fs(xs: &[u64]) -> FactSet {
    let mut s = FactSet::empty();
    for &x in xs {
        s = s.insert(x);
    }
    s
}

/// The diamond graph 0=Entry, 1=A, 2=B, 3=C, 4=D, 5=Exit.
fn diamond() -> Graph {
    let mut g = Graph::new(6);
    g.add_edge(0, 1);
    g.add_edge(1, 2);
    g.add_edge(1, 3);
    g.add_edge(2, 4);
    g.add_edge(3, 4);
    g.add_edge(4, 5);
    g
}

#[test]
fn it_works() {}

#[test]
fn diamond_may_confluence() {
    let g = diamond();
    let mut st = State::new(6);
    st.set_gen(2, fs(&[10]));
    st.set_gen(3, fs(&[20]));
    let r = analyze(&g, st, Forward, May, FUEL).expect("fuel too small");
    assert!(!r.out_facts(2).set_eq(r.out_facts(3)));
    assert!(r.out_facts(2).set_eq(&fs(&[10])));
    assert!(r.out_facts(3).set_eq(&fs(&[20])));
    let both = r.out_facts(2).clone().union(r.out_facts(3));
    assert!(r.in_facts(4).set_eq(&both));
    assert!(r.in_facts(4).set_eq(&fs(&[10, 20])));
}

#[test]
fn diamond_must_confluence() {
    let g = diamond();
    let mut st = State::new(6);
    st.set_gen(2, fs(&[10, 30]));
    st.set_gen(3, fs(&[20, 30]));
    let r = analyze(&g, st, Forward, Must, FUEL).expect("fuel too small");
    assert!(!r.out_facts(2).set_eq(r.out_facts(3)));
    let meet = r.out_facts(2).clone().intersection(r.out_facts(3));
    assert!(r.in_facts(4).set_eq(&meet));
    assert!(r.in_facts(4).set_eq(&fs(&[30])));
}

#[test]
fn end_to_end_chain() {
    // 0=Entry, 1=N1, 2=N2, 3=Exit.
    let mut g = Graph::new(4);
    g.add_edge(0, 1);
    g.add_edge(1, 2);
    g.add_edge(2, 3);
    let mut st = State::new(4);
    st.set_gen(1, fs(&[1]));
    st.set_gen(2, fs(&[2]));
    st.set_kill(2, fs(&[1]));
    let r = analyze(&g, st, Forward, May, FUEL).expect("fuel too small");
    assert!(r.out_facts(1).set_eq(&fs(&[1])));
    assert!(r.in_facts(2).set_eq(&fs(&[1])));
    assert!(r.out_facts(2).set_eq(&fs(&[2])));
    assert!(r.in_facts(3).set_eq(&fs(&[2])));
}

#[test]
fn degenerate_single_node() {
    let g = Graph::new(1);
    let st = State::new(1);
    let r = analyze(&g, st, Forward, May, FUEL).expect("fuel too small");
    let empty = FactSet::empty();
    assert!(r.in_facts(0).set_eq(&empty));
    assert!(r.out_facts(0).set_eq(&empty));
}

#[test]
fn unreachable_node_stabilizes_empty() {
    // Node 2 is in no way connected to the chain 0 -> 1, yet the
    // full-enumeration seeding still processes it.
    let mut g = Graph::new(3);
    g.add_edge(0, 1);
    let mut st = State::new(3);
    st.set_gen(0, fs(&[7]));
    let r = analyze(&g, st, Forward, May, FUEL).expect("fuel too small");
    let empty = FactSet::empty();
    assert!(r.in_facts(2).set_eq(&empty));
    assert!(r.out_facts(2).set_eq(&empty));
    assert!(r.in_facts(1).set_eq(&fs(&[7])));
}

#[test]
fn analyze_reaches_fixpoint() {
    let g = diamond();
    let mut st = State::new(6);
    st.set_gen(1, fs(&[1]));
    st.set_gen(2, fs(&[10]));
    st.set_gen(3, fs(&[20]));
    st.set_kill(4, fs(&[1]));
    let r = analyze(&g, st, Forward, May, FUEL).expect("fuel too small");
    assert!(check_stable(&g, &r, Forward, May));
}

#[test]
fn unconverged_state_is_not_stable() {
    // A fresh state with a non-empty gen set does not yet satisfy the
    // dataflow equations.
    let g = Graph::new(1);
    let mut st = State::new(1);
    st.set_gen(0, fs(&[3]));
    assert!(!check_stable(&g, &st, Forward, May));
}

#[test]
fn backward_liveness_chain() {
    let mut g = Graph::new(3);
    g.add_edge(0, 1);
    g.add_edge(1, 2);
    let mut st = State::new(3);
    st.set_gen(2, fs(&[5]));
    let r = analyze(&g, st, Backward, May, FUEL).expect("fuel too small");
    assert!(r.in_facts(2).set_eq(&fs(&[5])));
    assert!(r.out_facts(1).set_eq(&fs(&[5])));
    assert!(r.in_facts(0).set_eq(&fs(&[5])));
    assert!(r.out_facts(2).set_eq(&FactSet::empty()));
}

#[test]
fn direction_symmetry() {
    // Backward on the diamond must equal Forward on the edge-reversed
    // diamond, with the roles of in and out exchanged.
    let g = diamond();
    let mut gt = Graph::new(6);
    gt.add_edge(1, 0);
    gt.add_edge(2, 1);
    gt.add_edge(3, 1);
    gt.add_edge(4, 2);
    gt.add_edge(4, 3);
    gt.add_edge(5, 4);
    let mut st_b = State::new(6);
    let mut st_f = State::new(6);
    for v in 0..6u64 {
        let gen = fs(&[v * 2]);
        let kill = fs(&[v]);
        st_b.set_gen(v as usize, gen.clone());
        st_b.set_kill(v as usize, kill.clone());
        st_f.set_gen(v as usize, gen);
        st_f.set_kill(v as usize, kill);
    }
    let rb = analyze(&g, st_b, Backward, May, FUEL).expect("fuel too small");
    let rf = analyze(&gt, st_f, Forward, May, FUEL).expect("fuel too small");
    for v in 0..6 {
        assert!(rb.in_facts(v).set_eq(rf.out_facts(v)));
        assert!(rb.out_facts(v).set_eq(rf.in_facts(v)));
    }
}

#[test]
fn generalized_transfer_overrides_kill() {
    // A transfer that ignores the kill set: the fact survives node 1, where
    // the gen/kill transfer would have removed it.
    let mut g = Graph::new(2);
    g.add_edge(0, 1);
    let mut st = State::new(2);
    st.set_gen(0, fs(&[1]));
    st.set_kill(1, fs(&[1]));
    let r = analyze_kfn(&g, st, Forward, May, |a: &FactSet, _k: &FactSet| a.clone(), FUEL)
        .expect("fuel too small");
    assert!(r.out_facts(1).set_eq(&fs(&[1])));

    let mut st2 = State::new(2);
    st2.set_gen(0, fs(&[1]));
    st2.set_kill(1, fs(&[1]));
    let r2 = analyze(&g, st2, Forward, May, FUEL).expect("fuel too small");
    assert!(r2.out_facts(1).set_eq(&FactSet::empty()));
}

#[test]
fn fuel_exhausted_returns_none() {
    let g = Graph::new(1);
    let st = State::new(1);
    assert!(analyze(&g, st, Forward, May, 0).is_none());
}

#[test]
fn empty_graph_needs_no_fuel() {
    let g = Graph::new(0);
    let st = State::new(0);
    assert!(analyze(&g, st, Forward, May, 0).is_some());
}

#[test]
fn result_adapter_hands_back_state() {
    let g = Graph::new(2);
    let mut st = State::new(2);
    st.set_gen(0, fs(&[4]));
    let r = analyze(&g, st, Forward, May, FUEL).expect("fuel too small");
    let adapted: State = Analysis::from(r);
    assert!(adapted.out_facts(0).set_eq(&fs(&[4])));
}

#[test]
fn initial_seed_is_respected_under_must() {
    // The engine never seeds a zero-input node with anything but empty; a
    // Must analysis that wants facts at the entry injects them as gen.
    let mut g = Graph::new(2);
    g.add_edge(0, 1);
    let mut st = State::new(2);
    st.set_gen(0, fs(&[1, 2]));
    st.set_kill(1, fs(&[2]));
    let r = analyze(&g, st, Forward, Must, FUEL).expect("fuel too small");
    assert!(r.in_facts(0).set_eq(&FactSet::empty()));
    assert!(r.out_facts(0).set_eq(&fs(&[1, 2])));
    assert!(r.in_facts(1).set_eq(&fs(&[1, 2])));
    assert!(r.out_facts(1).set_eq(&fs(&[1])));
}

#[test]
fn graph_accessors() {
    let g = diamond();
    assert_eq!(g.node_count(), 6);
    assert_eq!(g.nodes(), vec![0, 1, 2, 3, 4, 5]);
    assert_eq!(g.immediate_predecessors(4), &vec![2, 3]);
    assert_eq!(g.immediate_successors(1), &vec![2, 3]);
}
