use vstd::prelude::*;
use crate::operator::OperatorView;

verus! {

/// A directed edge from an output port of one node to an input port of another.
#[derive(Clone, Copy, Debug, PartialEq, Eq, Structural)]
pub struct Connection {
    pub src_node_id: usize,
    pub src_port_id: usize,
    pub dst_node_id: usize,
    pub dst_port_id: usize,
}

/// The structure of a rack: the registered node ids in registry order and the
/// connections in the order of insertion.
#[verifier::ext_equal]
pub struct Wiring {
    pub ids: Seq<usize>,
    pub connections: Seq<Connection>,
}

/// The abstract state of a rack: its wiring, and the operators at the positions of
/// their ids.
#[verifier::ext_equal]
pub struct RackView {
    pub wiring: Wiring,
    pub ops: Seq<OperatorView>,
}

/// Node ids are unique.
pub open spec fn unique_ids(ids: Seq<usize>) -> bool {
    forall|i: int, j: int| 0 <= i < ids.len() && 0 <= j < ids.len() && i != j ==> ids[i] != ids[j]
}

/// The position of `id` among `ids`, or -1 where it is not registered.
pub open spec fn find(ids: Seq<usize>, id: usize) -> int {
    if exists|j: int| 0 <= j < ids.len() && ids[j] == id {
        choose|j: int| 0 <= j < ids.len() && ids[j] == id
    } else {
        -1
    }
}

impl Wiring {
    /// A node is registered as `id`.
    pub open spec fn has_node(self, id: usize) -> bool {
        self.ids.contains(id)
    }

    /// Connection `i` joins two registered nodes: it is an edge of the dependency graph.
    pub open spec fn is_edge_at(self, i: int) -> bool {
        &&& 0 <= i < self.connections.len()
        &&& self.has_node(self.connections[i].src_node_id)
        &&& self.has_node(self.connections[i].dst_node_id)
    }

    /// There is an edge from `u` to `v`.
    pub open spec fn is_edge(self, u: usize, v: usize) -> bool {
        exists|i: int|
            self.is_edge_at(i) && self.connections[i].src_node_id == u
                && self.connections[i].dst_node_id == v
    }

    /// Every registered node with an edge into `v` is among `done`: the in-degree of
    /// `v` counted over the nodes not yet ordered is zero.
    pub open spec fn ready(self, done: Seq<usize>, v: usize) -> bool {
        forall|i: int|
            #![trigger self.connections[i]]
            0 <= i < self.connections.len() && self.connections[i].dst_node_id == v
                && self.has_node(self.connections[i].src_node_id) ==> done.contains(
                self.connections[i].src_node_id,
            )
    }

    /// The node at position `j` is not yet ordered and may come next.
    pub open spec fn eligible(self, done: Seq<usize>, j: int) -> bool {
        !done.contains(self.ids[j]) && self.ready(done, self.ids[j])
    }

    /// The first position, from `j` on, of a node that may come next; -1 if none.
    pub open spec fn first_eligible(self, done: Seq<usize>, j: int) -> int
        decreases self.ids.len() - j,
    {
        if j < 0 || j >= self.ids.len() {
            -1
        } else if self.eligible(done, j) {
            j
        } else {
            self.first_eligible(done, j + 1)
        }
    }

    /// The order after `k` steps of Kahn's algorithm; each step appends the first node
    /// in registry order whose in-degree over the nodes not yet ordered is zero.
    pub open spec fn kahn_steps(self, k: nat) -> Seq<usize>
        decreases k,
    {
        if k == 0 {
            Seq::empty()
        } else {
            let done = self.kahn_steps((k - 1) as nat);
            let j = self.first_eligible(done, 0);
            if j >= 0 {
                done.push(self.ids[j])
            } else {
                done
            }
        }
    }

    /// The execution order the scheduler computes.
    pub open spec fn schedule(self) -> Seq<usize> {
        self.kahn_steps(self.ids.len())
    }

    /// The schedule holds every registered node.
    pub open spec fn schedules_fully(self) -> bool {
        self.schedule().len() == self.ids.len()
    }

    /// `o` lists every registered node exactly once, each after all nodes with an edge
    /// into it.
    pub open spec fn is_topological_order(self, o: Seq<usize>) -> bool {
        &&& o.no_duplicates()
        &&& o.len() == self.ids.len()
        &&& forall|k: int| 0 <= k < o.len() ==> self.has_node(#[trigger] o[k])
        &&& forall|i: int, a: int, b: int|
            #![trigger self.connections[i], o[a], o[b]]
            self.is_edge_at(i) && 0 <= a < o.len() && 0 <= b < o.len()
                && o[a] == self.connections[i].src_node_id
                && o[b] == self.connections[i].dst_node_id ==> a < b
    }

    /// The graph has no cycle: its nodes can be put in topological order.
    pub open spec fn is_acyclic(self) -> bool {
        exists|o: Seq<usize>| self.is_topological_order(o)
    }

    /// `path` walks along edges and comes back to where it started.
    pub open spec fn is_cycle(self, path: Seq<usize>) -> bool {
        &&& path.len() >= 2
        &&& path[0] == path.last()
        &&& forall|k: int| 0 <= k < path.len() - 1 ==> self.is_edge(path[k], #[trigger] path[k + 1])
    }

    /// Some walk along edges comes back to where it started.
    pub open spec fn has_cycle(self) -> bool {
        exists|path: Seq<usize>| self.is_cycle(path)
    }
}

impl Wiring {
    /// Connection `c` can carry a value in `ops`: both nodes are registered and own the
    /// ports it names.
    pub open spec fn carries(self, ops: Seq<OperatorView>, c: Connection) -> bool {
        let s = find(self.ids, c.src_node_id);
        let d = find(self.ids, c.dst_node_id);
        &&& 0 <= s
        &&& 0 <= d
        &&& c.src_port_id < ops[s].outputs.len()
        &&& c.dst_port_id < ops[d].inputs.len()
    }

    /// Copies the value of the source port of `c` into its destination port; nothing
    /// changes where the connection cannot carry a value.
    pub open spec fn pull_one(self, ops: Seq<OperatorView>, c: Connection) -> Seq<OperatorView> {
        let s = find(self.ids, c.src_node_id);
        let d = find(self.ids, c.dst_node_id);
        if self.carries(ops, c) {
            ops.update(d, ops[d].with_input(c.dst_port_id as int, ops[s].outputs[c.src_port_id as int]))
        } else {
            ops
        }
    }

    /// The pull phase of node `v` over the first `k` connections, in their order.
    pub open spec fn pull_prefix(self, ops: Seq<OperatorView>, v: usize, k: nat) -> Seq<OperatorView>
        decreases k,
    {
        if k == 0 {
            ops
        } else {
            let prev = self.pull_prefix(ops, v, (k - 1) as nat);
            let c = self.connections[k - 1];
            if c.dst_node_id == v {
                self.pull_one(prev, c)
            } else {
                prev
            }
        }
    }

    /// The pull phase of node `v`: every connection into `v`, in insertion order.
    pub open spec fn pull_into(self, ops: Seq<OperatorView>, v: usize) -> Seq<OperatorView> {
        self.pull_prefix(ops, v, self.connections.len())
    }

    /// Node `v` takes its turn: its pull phase, then its compute step.
    pub open spec fn process(self, ops: Seq<OperatorView>, v: usize) -> Seq<OperatorView> {
        let pulled = self.pull_into(ops, v);
        let d = find(self.ids, v);
        if 0 <= d {
            pulled.update(d, pulled[d].computed())
        } else {
            pulled
        }
    }

    /// The first `k` nodes of `order` take their turns.
    pub open spec fn run(self, ops: Seq<OperatorView>, order: Seq<usize>, k: nat) -> Seq<OperatorView>
        decreases k,
    {
        if k == 0 {
            ops
        } else {
            self.process(self.run(ops, order, (k - 1) as nat), order[k - 1])
        }
    }

}

impl RackView {
    /// Ids are unique and each has its operator.
    pub open spec fn wf(self) -> bool {
        &&& unique_ids(self.wiring.ids)
        &&& self.ops.len() == self.wiring.ids.len()
    }

    /// One tick: where the schedule holds every node, each node in turn pulls its inputs
    /// and computes; otherwise nothing changes.
    pub open spec fn pass(self) -> RackView {
        let w = self.wiring;
        if w.schedules_fully() {
            RackView { wiring: w, ops: w.run(self.ops, w.schedule(), w.ids.len()) }
        } else {
            self
        }
    }
}

/// With unique ids, the position of a registered id is where it stands.
pub proof fn lemma_find_at(ids: Seq<usize>, j: int)
    requires
        unique_ids(ids),
        0 <= j < ids.len(),
    ensures
        find(ids, ids[j]) == j,
{
    assert(0 <= j < ids.len() && ids[j] == ids[j]);
    let k = find(ids, ids[j]);
    assert(0 <= k < ids.len() && ids[k] == ids[j]);
}

/// `find` gives a position holding the id, or -1 exactly where the id is absent.
pub proof fn lemma_find(ids: Seq<usize>, id: usize)
    ensures
        -1 <= find(ids, id) < ids.len(),
        find(ids, id) >= 0 <==> ids.contains(id),
        find(ids, id) >= 0 ==> ids[find(ids, id)] == id,
{
    if ids.contains(id) {
        let j = choose|j: int| 0 <= j < ids.len() && ids[j] == id;
        assert(0 <= j < ids.len() && ids[j] == id);
    }
}

impl Wiring {
    /// The first eligible position from `j` on is eligible, or there is none from `j` on.
    pub proof fn lemma_first_eligible(self, done: Seq<usize>, j: int)
        requires
            0 <= j,
        ensures
            self.first_eligible(done, j) == -1 ==> forall|k: int|
                j <= k < self.ids.len() ==> !self.eligible(done, k),
            self.first_eligible(done, j) != -1 ==> {
                let r = self.first_eligible(done, j);
                &&& j <= r < self.ids.len()
                &&& self.eligible(done, r)
                &&& forall|k: int| j <= k < r ==> !self.eligible(done, k)
            },
        decreases self.ids.len() - j,
    {
        if j < self.ids.len() && !self.eligible(done, j) {
            self.lemma_first_eligible(done, j + 1);
        }
    }
}

impl RackView {
    /// The rack with node `id` holding `op`: replaced in place where `id` is registered,
    /// appended to the registry otherwise.
    pub open spec fn with_node(self, id: usize, op: OperatorView) -> RackView {
        let j = find(self.wiring.ids, id);
        if 0 <= j {
            RackView { ops: self.ops.update(j, op), ..self }
        } else {
            RackView {
                wiring: Wiring { ids: self.wiring.ids.push(id), ..self.wiring },
                ops: self.ops.push(op),
            }
        }
    }

    /// The rack with `c` appended to its connections.
    pub open spec fn with_connection(self, c: Connection) -> RackView {
        RackView {
            wiring: Wiring { connections: self.wiring.connections.push(c), ..self.wiring },
            ..self
        }
    }

    /// The operator registered as `id`.
    pub open spec fn node(self, id: usize) -> OperatorView {
        self.ops[find(self.wiring.ids, id)]
    }
}

/// The positions among the first `k` connections of those that cannot carry a value.
pub open spec fn dangling_prefix(w: Wiring, ops: Seq<OperatorView>, k: nat) -> Seq<usize>
    decreases k,
{
    if k == 0 {
        Seq::empty()
    } else {
        let rest = dangling_prefix(w, ops, (k - 1) as nat);
        if w.carries(ops, w.connections[k - 1]) {
            rest
        } else {
            rest.push((k - 1) as usize)
        }
    }
}

impl Wiring {
    /// The number of the first `k` connections that run into `v` from a registered node
    /// not in `done`: the in-degree of `v` over the nodes not yet ordered.
    pub open spec fn in_degree(self, done: Seq<usize>, v: usize, k: nat) -> nat
        decreases k,
    {
        if k == 0 {
            0
        } else {
            let c = self.connections[k - 1];
            let rest = self.in_degree(done, v, (k - 1) as nat);
            if c.dst_node_id == v && self.has_node(c.src_node_id) && !done.contains(c.src_node_id) {
                rest + 1
            } else {
                rest
            }
        }
    }

    /// The number of the first `k` connections from `u` into `v`.
    pub open spec fn edges_between(self, u: usize, v: usize, k: nat) -> nat
        decreases k,
    {
        if k == 0 {
            0
        } else {
            let c = self.connections[k - 1];
            let rest = self.edges_between(u, v, (k - 1) as nat);
            if c.src_node_id == u && c.dst_node_id == v {
                rest + 1
            } else {
                rest
            }
        }
    }

    /// The in-degree is zero exactly when the node is ready.
    pub proof fn lemma_in_degree_zero(self, done: Seq<usize>, v: usize, k: nat)
        requires
            k <= self.connections.len(),
        ensures
            (self.in_degree(done, v, k) == 0) == (forall|i: int|
                #![trigger self.connections[i]]
                0 <= i < k && self.connections[i].dst_node_id == v && self.has_node(
                    self.connections[i].src_node_id,
                ) ==> done.contains(self.connections[i].src_node_id)),
            self.in_degree(done, v, k) <= k,
        decreases k,
    {
        if k > 0 {
            self.lemma_in_degree_zero(done, v, (k - 1) as nat);
        }
    }

    /// Fewer connections among fewer of them.
    pub proof fn lemma_edges_between_mono(self, u: usize, v: usize, k1: nat, k2: nat)
        requires
            k1 <= k2,
        ensures
            self.edges_between(u, v, k1) <= self.edges_between(u, v, k2),
        decreases k2,
    {
        if k2 > k1 {
            self.lemma_edges_between_mono(u, v, k1, (k2 - 1) as nat);
        }
    }

    /// Ordering registered node `u` lowers the in-degree of `v` by the number of
    /// connections from `u` into `v`.
    pub proof fn lemma_in_degree_order(self, done: Seq<usize>, u: usize, v: usize, k: nat)
        requires
            k <= self.connections.len(),
            self.has_node(u),
            !done.contains(u),
        ensures
            self.edges_between(u, v, k) <= self.in_degree(done, v, k),
            self.in_degree(done.push(u), v, k) == self.in_degree(done, v, k) - self.edges_between(
                u,
                v,
                k,
            ),
        decreases k,
    {
        if k > 0 {
            self.lemma_in_degree_order(done, u, v, (k - 1) as nat);
            let c = self.connections[k - 1];
            assert(done.push(u).contains(c.src_node_id) == (done.contains(c.src_node_id)
                || c.src_node_id == u)) by {
                if done.push(u).contains(c.src_node_id) && c.src_node_id != u {
                    let i = choose|i: int| 0 <= i < done.push(u).len() && done.push(u)[i] == c.src_node_id;
                    assert(i < done.len());
                    assert(done[i] == c.src_node_id);
                }
                if c.src_node_id == u {
                    assert(done.push(u)[done.len() as int] == u);
                }
                if done.contains(c.src_node_id) {
                    let i = choose|i: int| 0 <= i < done.len() && done[i] == c.src_node_id;
                    assert(done.push(u)[i] == c.src_node_id);
                }
            }
        }
    }
}

/// The ids of `ids` that are not in `done`, in their order.
pub open spec fn missing_from(ids: Seq<usize>, done: Seq<usize>) -> Seq<usize>
    decreases ids.len(),
{
    if ids.len() == 0 {
        Seq::empty()
    } else {
        let rest = missing_from(ids.drop_last(), done);
        if done.contains(ids.last()) {
            rest
        } else {
            rest.push(ids.last())
        }
    }
}

} // verus!
