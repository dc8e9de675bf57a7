use vstd::prelude::*;

verus! {

/// A directed control-flow-like graph over nodes `0 .. node_count()`.
///
/// Both the predecessor and the successor relation are stored as adjacency
/// lists; well-formedness ties the two together, so that `b` is listed as a
/// successor of `a` exactly when `a` is listed as a predecessor of `b`.
pub struct Graph {
    pub preds: Vec<Vec<usize>>,
    pub succs: Vec<Vec<usize>>,
}

pub(crate) proof fn lemma_push_contains_usize(s: Seq<usize>, x: usize, y: usize)
    ensures
        s.push(x).contains(y) <==> (s.contains(y) || y == x),
{
    if s.contains(y) {
        let i = choose|i: int| 0 <= i < s.len() && s[i] == y;
        assert(s.push(x)[i] == y);
    }
    if y == x {
        assert(s.push(x)[s.len() as int] == y);
    }
    if s.push(x).contains(y) {
        let i = choose|i: int| 0 <= i < s.push(x).len() && s.push(x)[i] == y;
        if i < s.len() {
            assert(s[i] == y);
        }
    }
}

impl Graph {
    /// The number of nodes.
    pub open spec fn num_nodes(self) -> int {
        self.preds@.len() as int
    }

    /// The list of immediate predecessors of node `v`.
    pub open spec fn preds_of(self, v: int) -> Seq<usize> {
        self.preds@[v]@
    }

    /// The list of immediate successors of node `v`.
    pub open spec fn succs_of(self, v: int) -> Seq<usize> {
        self.succs@[v]@
    }

    /// Well-formedness: the two adjacency lists have one entry per node, every
    /// listed neighbor is a node, and the predecessor and successor relations
    /// are mutually consistent.
    pub open spec fn wf(self) -> bool {
        &&& self.succs@.len() == self.preds@.len()
        &&& forall|v: int, k: int|
            0 <= v < self.num_nodes() && 0 <= k < self.preds_of(v).len() ==> (
            #[trigger] self.preds_of(v)[k]) < self.num_nodes()
        &&& forall|v: int, k: int|
            0 <= v < self.num_nodes() && 0 <= k < self.succs_of(v).len() ==> (
            #[trigger] self.succs_of(v)[k]) < self.num_nodes()
        &&& forall|a: usize, b: usize|
            a < self.num_nodes() && b < self.num_nodes() ==> (#[trigger] self.preds_of(
                b as int,
            ).contains(a) <==> #[trigger] self.succs_of(a as int).contains(b))
    }

    /// The graph with every edge reversed: predecessors and successors
    /// exchange roles.
    pub open spec fn transposed(self) -> Graph {
        Graph { preds: self.succs, succs: self.preds }
    }

    /// An edge-free graph with nodes `0 .. n`.
    pub fn new(n: usize) -> (r: Graph)
        ensures
            r.wf(),
            r.num_nodes() == n,
            forall|v: int| 0 <= v < n ==> (#[trigger] r.preds_of(v)).len() == 0,
            forall|v: int| 0 <= v < n ==> (#[trigger] r.succs_of(v)).len() == 0,
    {
        let mut preds: Vec<Vec<usize>> = Vec::new();
        let mut succs: Vec<Vec<usize>> = Vec::new();
        let mut i: usize = 0;
        while i < n
            invariant
                i <= n,
                preds@.len() == i,
                succs@.len() == i,
                forall|v: int| 0 <= v < i ==> (#[trigger] preds@[v])@.len() == 0,
                forall|v: int| 0 <= v < i ==> (#[trigger] succs@[v])@.len() == 0,
            decreases n - i,
        {
            preds.push(Vec::new());
            succs.push(Vec::new());
            i += 1;
        }
        Graph { preds, succs }
    }

    /// The number of nodes, as an executable value.
    pub fn node_count(&self) -> (r: usize)
        ensures
            r == self.num_nodes(),
    {
        self.preds.len()
    }

    /// Every node of the graph, each exactly once, in ascending order.
    pub fn nodes(&self) -> (r: Vec<usize>)
        ensures
            r@.len() == self.num_nodes(),
            forall|k: int| 0 <= k < r@.len() ==> r@[k] == k,
    {
        let n: usize = self.preds.len();
        let mut r: Vec<usize> = Vec::new();
        let mut i: usize = 0;
        while i < n
            invariant
                i <= n,
                r@.len() == i,
                forall|k: int| 0 <= k < i ==> r@[k] == k,
            decreases n - i,
        {
            r.push(i);
            i += 1;
        }
        r
    }

    /// Adds the edge `a -> b` to both adjacency lists.
    pub fn add_edge(&mut self, a: usize, b: usize)
        requires
            old(self).wf(),
            a < old(self).num_nodes(),
            b < old(self).num_nodes(),
        ensures
            final(self).wf(),
            final(self).num_nodes() == old(self).num_nodes(),
            final(self).succs_of(a as int) == old(self).succs_of(a as int).push(b),
            final(self).preds_of(b as int) == old(self).preds_of(b as int).push(a),
            forall|v: int|
                0 <= v < old(self).num_nodes() && v != a ==> #[trigger] final(self).succs_of(v)
                    == old(self).succs_of(v),
            forall|v: int|
                0 <= v < old(self).num_nodes() && v != b ==> #[trigger] final(self).preds_of(v)
                    == old(self).preds_of(v),
    {
        let ghost g0 = *self;
        let mut srow: Vec<usize> = self.succs.remove(a);
        srow.push(b);
        self.succs.insert(a, srow);
        let mut prow: Vec<usize> = self.preds.remove(b);
        prow.push(a);
        self.preds.insert(b, prow);
        proof {
            assert(self.succs@ =~= g0.succs@.update(a as int, srow));
            assert(self.preds@ =~= g0.preds@.update(b as int, prow));
            assert forall|v: int, k: int|
                0 <= v < self.num_nodes() && 0 <= k < self.preds_of(v).len() implies (
            #[trigger] self.preds_of(v)[k]) < self.num_nodes() by {
                if v == b && k == g0.preds_of(v).len() {
                    assert(self.preds_of(v)[k] == a);
                } else {
                    assert(self.preds_of(v)[k] == g0.preds_of(v)[k]);
                }
            }
            assert forall|v: int, k: int|
                0 <= v < self.num_nodes() && 0 <= k < self.succs_of(v).len() implies (
            #[trigger] self.succs_of(v)[k]) < self.num_nodes() by {
                if v == a && k == g0.succs_of(v).len() {
                    assert(self.succs_of(v)[k] == b);
                } else {
                    assert(self.succs_of(v)[k] == g0.succs_of(v)[k]);
                }
            }
            assert forall|x: usize, y: usize|
                x < self.num_nodes() && y < self.num_nodes() implies (#[trigger] self.preds_of(
                y as int,
            ).contains(x) <==> #[trigger] self.succs_of(x as int).contains(y)) by {
                lemma_push_contains_usize(g0.succs_of(a as int), b, y);
                lemma_push_contains_usize(g0.preds_of(b as int), a, x);
                assert(g0.preds_of(y as int).contains(x) <==> g0.succs_of(x as int).contains(y));
            }
        }
    }

    /// The immediate predecessors of `node`.
    pub fn immediate_predecessors(&self, node: usize) -> (r: &Vec<usize>)
        requires
            node < self.num_nodes(),
        ensures
            r@ == self.preds_of(node as int),
    {
        &self.preds[node]
    }

    /// The immediate successors of `node`.
    pub fn immediate_successors(&self, node: usize) -> (r: &Vec<usize>)
        requires
            self.wf(),
            node < self.num_nodes(),
        ensures
            r@ == self.succs_of(node as int),
    {
        &self.succs[node]
    }

    /// The input side of a node: predecessors under a forward analysis,
    /// successors under a backward one.
    pub open spec fn inputs_of(self, fwd: bool, v: int) -> Seq<usize> {
        if fwd {
            self.preds_of(v)
        } else {
            self.succs_of(v)
        }
    }

    /// The nodes whose inputs include `v`: successors under a forward
    /// analysis, predecessors under a backward one.
    pub open spec fn affected_of(self, fwd: bool, v: int) -> Seq<usize> {
        if fwd {
            self.succs_of(v)
        } else {
            self.preds_of(v)
        }
    }

    /// The input side of `node`, as an executable list.
    pub fn inputs(&self, fwd: bool, node: usize) -> (r: &Vec<usize>)
        requires
            self.wf(),
            node < self.num_nodes(),
        ensures
            r@ == self.inputs_of(fwd, node as int),
    {
        if fwd {
            self.immediate_predecessors(node)
        } else {
            self.immediate_successors(node)
        }
    }

    /// The nodes affected by a change at `node`, as an executable list.
    pub fn affected(&self, fwd: bool, node: usize) -> (r: &Vec<usize>)
        requires
            self.wf(),
            node < self.num_nodes(),
        ensures
            r@ == self.affected_of(fwd, node as int),
    {
        if fwd {
            self.immediate_successors(node)
        } else {
            self.immediate_predecessors(node)
        }
    }
}

/// In a well-formed graph, `x` is an input of `y` exactly when `y` is
/// affected by `x`, in either direction of analysis.
pub proof fn lemma_inputs_affected(g: Graph, fwd: bool, x: usize, y: usize)
    requires
        g.wf(),
        x < g.num_nodes(),
        y < g.num_nodes(),
    ensures
        g.inputs_of(fwd, y as int).contains(x) <==> g.affected_of(fwd, x as int).contains(y),
{
    assert(g.preds_of(y as int).contains(x) <==> g.succs_of(x as int).contains(y));
    assert(g.preds_of(x as int).contains(y) <==> g.succs_of(y as int).contains(x));
}

} // verus!
