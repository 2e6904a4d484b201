use vstd::prelude::*;
use crate::operator::{Operator, OperatorInput, OperatorKind, OperatorOutput, OperatorView};
use crate::rack_model::{Connection, RackView, Wiring, dangling_prefix, find, lemma_find, lemma_find_at, missing_from, unique_ids};

verus! {

/// A registered node: its id and its operator.
pub struct RackNode {
    pub id: usize,
    pub operator: Operator,
}

/// The owner of the nodes and connections, and their scheduler.
pub struct OperatorRack {
    pub operators: Vec<RackNode>,
    pub connections: Vec<Connection>,
}

impl View for OperatorRack {
    type V = RackView;

    open spec fn view(&self) -> RackView {
        RackView {
            wiring: Wiring {
                ids: self.operators@.map_values(|n: RackNode| n.id),
                connections: self.connections@,
            },
            ops: self.operators@.map_values(|n: RackNode| n.operator@),
        }
    }
}

fn contains_id(v: &Vec<usize>, x: usize) -> (r: bool)
    ensures
        r == v@.contains(x),
{
    let mut i: usize = 0;
    while i < v.len()
        invariant
            i <= v.len(),
            forall|k: int| 0 <= k < i ==> v@[k] != x,
        decreases v.len() - i,
    {
        if v[i] == x {
            return true;
        }
        i += 1;
    }
    false
}

/// The id of the input boundary node.
pub const INPUT_NODE_ID: usize = 0;

/// The id of the output boundary node.
pub const OUTPUT_NODE_ID: usize = 1;

/// A boundary operator view: `n` ports holding 0 on the side given by `kind`.
pub open spec fn boundary_view(kind: OperatorKind, n: usize) -> OperatorView {
    match kind {
        OperatorKind::Input => OperatorView {
            kind,
            inputs: Seq::empty(),
            outputs: Seq::new(n as nat, |i: int| 0i32),
        },
        _ => OperatorView { kind, inputs: Seq::new(n as nat, |i: int| 0i32), outputs: Seq::empty() },
    }
}

impl OperatorRack {
    /// No two registered nodes share an id.
    pub open spec fn wf(&self) -> bool {
        unique_ids(self@.wiring.ids)
    }

    /// A rack holding only the input boundary at id 0 and the output boundary at id 1,
    /// each with `track_number` ports, and no connections.
    pub fn new(track_number: usize) -> (r: OperatorRack)
        ensures
            r.wf(),
            r@.wiring.ids == seq![INPUT_NODE_ID, OUTPUT_NODE_ID],
            r@.wiring.connections == Seq::<Connection>::empty(),
            r@.ops == seq![
                boundary_view(OperatorKind::Input, track_number),
                boundary_view(OperatorKind::Output, track_number),
            ],
    {
        let mut rack = OperatorRack { operators: Vec::new(), connections: Vec::new() };
        let input_node = Operator::Input(OperatorInput::new(track_number));
        let output_node = Operator::Output(OperatorOutput::new(track_number));
        proof {
            assert(rack@.wiring.ids =~= Seq::<usize>::empty());
            assert(unique_ids(rack@.wiring.ids));
        }
        let _ = rack.add_node(INPUT_NODE_ID, input_node);
        let _ = rack.add_node(OUTPUT_NODE_ID, output_node);
        proof {
            assert(rack@.wiring.ids =~= seq![INPUT_NODE_ID, OUTPUT_NODE_ID]);
            assert(rack@.ops =~= seq![
                boundary_view(OperatorKind::Input, track_number),
                boundary_view(OperatorKind::Output, track_number),
            ]);
        }
        rack
    }

    /// Registers `node` as `node_id`. Where that id is taken, the node there is replaced
    /// and handed back.
    pub fn add_node(&mut self, node_id: usize, node: Operator) -> (r: Option<Operator>)
        requires
            old(self).wf(),
        ensures
            final(self).wf(),
            final(self)@ == old(self)@.with_node(node_id, node@),
            r.is_some() == old(self)@.wiring.has_node(node_id),
            r.is_some() ==> r.unwrap()@ == old(self)@.node(node_id),
    {
        let ghost m = self@;
        proof {
            lemma_find(m.wiring.ids, node_id);
        }
        match self.node_index(node_id) {
            Some(j) => {
                let mut node = node;
                let ghost before = self.operators@[j as int];
                std::mem::swap(&mut self.operators[j].operator, &mut node);
                proof {
                    assert(self.operators@[j as int].id == before.id);
                    assert(self@.wiring =~= m.wiring);
                    assert(self@.ops =~= m.ops.update(j as int, self.operators@[j as int].operator@));
                    assert(self@ =~= m.with_node(node_id, self.operators@[j as int].operator@));
                }
                Some(node)
            },
            None => {
                self.operators.push(RackNode { id: node_id, operator: node });
                proof {
                    assert(self@ =~= m.with_node(node_id, node@));
                    assert forall|a: int, b: int|
                        0 <= a < self@.wiring.ids.len() && 0 <= b < self@.wiring.ids.len() && a
                            != b implies self@.wiring.ids[a] != self@.wiring.ids[b] by {
                        if a < m.wiring.ids.len() && b < m.wiring.ids.len() {
                            assert(self@.wiring.ids[a] == m.wiring.ids[a]);
                            assert(self@.wiring.ids[b] == m.wiring.ids[b]);
                        } else if a < m.wiring.ids.len() {
                            assert(self@.wiring.ids[a] == m.wiring.ids[a]);
                        } else if b < m.wiring.ids.len() {
                            assert(self@.wiring.ids[b] == m.wiring.ids[b]);
                        }
                    }
                }
                None
            },
        }
    }

    /// Appends a connection from output port `src_port_id` of node `src_node_id` to
    /// input port `dst_port_id` of node `dst_node_id`. Neither node nor port need exist.
    pub fn connect(
        &mut self,
        src_node_id: usize,
        src_port_id: usize,
        dst_node_id: usize,
        dst_port_id: usize,
    )
        requires
            old(self).wf(),
        ensures
            final(self).wf(),
            final(self)@ == old(self)@.with_connection(
                Connection { src_node_id, src_port_id, dst_node_id, dst_port_id },
            ),
    {
        let c = Connection { src_node_id, src_port_id, dst_node_id, dst_port_id };
        self.connections.push(c);
        assert(self@ =~= old(self)@.with_connection(c));
    }

    /// The operator registered as `node_id`.
    pub fn get_node(&self, node_id: usize) -> (r: Option<&Operator>)
        requires
            self.wf(),
        ensures
            r.is_some() == self@.wiring.has_node(node_id),
            r.is_some() ==> r.unwrap()@ == self@.node(node_id),
    {
        match self.node_index(node_id) {
            Some(j) => Some(&self.operators[j].operator),
            None => None,
        }
    }

    /// The value of input port `port_id` of node `node_id`, where both exist.
    pub fn input_value(&self, node_id: usize, port_id: usize) -> (r: Option<i32>)
        requires
            self.wf(),
        ensures
            r.is_some() == (self@.wiring.has_node(node_id) && port_id < self@.node(
                node_id,
            ).inputs.len()),
            r.is_some() ==> r.unwrap() == self@.node(node_id).inputs[port_id as int],
    {
        match self.get_node(node_id) {
            Some(op) => match op.get_input_port(port_id) {
                Some(p) => Some(p.value),
                None => None,
            },
            None => None,
        }
    }

    /// The value of output port `port_id` of node `node_id`, where both exist.
    pub fn output_value(&self, node_id: usize, port_id: usize) -> (r: Option<i32>)
        requires
            self.wf(),
        ensures
            r.is_some() == (self@.wiring.has_node(node_id) && port_id < self@.node(
                node_id,
            ).outputs.len()),
            r.is_some() ==> r.unwrap() == self@.node(node_id).outputs[port_id as int],
    {
        match self.get_node(node_id) {
            Some(op) => match op.get_output_port(port_id) {
                Some(p) => Some(p.value),
                None => None,
            },
            None => None,
        }
    }

    /// Writes `value` into output port `port_id` of node `node_id`; false, and nothing
    /// changes, where the node or the port does not exist.
    pub fn set_output_value(&mut self, node_id: usize, port_id: usize, value: i32) -> (r: bool)
        requires
            old(self).wf(),
        ensures
            final(self).wf(),
            r == (old(self)@.wiring.has_node(node_id) && port_id < old(self)@.node(
                node_id,
            ).outputs.len()),
            final(self)@ == if r {
                old(self)@.with_node(
                    node_id,
                    OperatorView {
                        outputs: old(self)@.node(node_id).outputs.update(port_id as int, value),
                        ..old(self)@.node(node_id)
                    },
                )
            } else {
                old(self)@
            },
    {
        let ghost m = self@;
        proof {
            lemma_find(m.wiring.ids, node_id);
        }
        match self.node_index(node_id) {
            Some(j) => {
                let ghost before = self.operators@[j as int];
                let ok = self.operators[j].operator.set_output_port(port_id, value);
                proof {
                    assert(self.operators@[j as int].id == before.id);
                    assert(self@.wiring =~= m.wiring);
                    if ok {
                        assert(self@.ops =~= m.ops.update(j as int, self.operators@[j as int].operator@));
                        assert(self@ =~= m.with_node(node_id, self.operators@[j as int].operator@));
                    } else {
                        assert(self@.ops =~= m.ops);
                        assert(self@ =~= m);
                    }
                }
                ok
            },
            None => false,
        }
    }

    /// Sets the value that enters the rack on track `track` before the next tick.
    pub fn set_track_input(&mut self, track: usize, value: i32) -> (r: bool)
        requires
            old(self).wf(),
        ensures
            final(self).wf(),
            r == (old(self)@.wiring.has_node(INPUT_NODE_ID) && track < old(self)@.node(
                INPUT_NODE_ID,
            ).outputs.len()),
            final(self)@ == if r {
                old(self)@.with_node(
                    INPUT_NODE_ID,
                    OperatorView {
                        outputs: old(self)@.node(INPUT_NODE_ID).outputs.update(track as int, value),
                        ..old(self)@.node(INPUT_NODE_ID)
                    },
                )
            } else {
                old(self)@
            },
    {
        self.set_output_value(INPUT_NODE_ID, track, value)
    }

    /// The value the last tick left on track `track` of the output boundary.
    pub fn track_output(&self, track: usize) -> (r: Option<i32>)
        requires
            self.wf(),
        ensures
            r.is_some() == (self@.wiring.has_node(OUTPUT_NODE_ID) && track < self@.node(
                OUTPUT_NODE_ID,
            ).inputs.len()),
            r.is_some() ==> r.unwrap() == self@.node(OUTPUT_NODE_ID).inputs[track as int],
    {
        self.input_value(OUTPUT_NODE_ID, track)
    }

    /// The positions of the connections that name a node or port that does not exist,
    /// in insertion order: those carry no value.
    pub fn dangling_connections(&self) -> (r: Vec<usize>)
        requires
            self.wf(),
        ensures
            r@ == dangling_prefix(self@.wiring, self@.ops, self@.wiring.connections.len()),
    {
        let ghost m = self@;
        let mut r: Vec<usize> = Vec::new();
        let mut i: usize = 0;
        while i < self.connections.len()
            invariant
                i <= self.connections.len(),
                self.wf(),
                self@ == m,
                r@ == dangling_prefix(m.wiring, m.ops, i as nat),
            decreases self.connections.len() - i,
        {
            let c = self.connections[i];
            proof {
                lemma_find(m.wiring.ids, c.src_node_id);
                lemma_find(m.wiring.ids, c.dst_node_id);
            }
            let carries = match (self.node_index(c.src_node_id), self.node_index(c.dst_node_id)) {
                (Some(s), Some(d)) => self.operators[s].operator.get_output_port(c.src_port_id).is_some()
                    && self.operators[d].operator.get_input_port(c.dst_port_id).is_some(),
                _ => false,
            };
            if !carries {
                r.push(i);
            }
            i += 1;
        }
        r
    }

    /// The position of node `id` in the registry.
    fn node_index(&self, id: usize) -> (r: Option<usize>)
        requires
            self.wf(),
        ensures
            r.is_some() == self@.wiring.has_node(id),
            r.is_some() ==> r.unwrap() == find(self@.wiring.ids, id),
            r.is_some() ==> r.unwrap() < self.operators@.len(),
    {
        let mut i: usize = 0;
        while i < self.operators.len()
            invariant
                i <= self.operators.len(),
                self.wf(),
                forall|k: int| 0 <= k < i ==> self@.wiring.ids[k] != id,
            decreases self.operators.len() - i,
        {
            if self.operators[i].id == id {
                proof {
                    assert(self@.wiring.ids[i as int] == id);
                    lemma_find_at(self@.wiring.ids, i as int);
                }
                return Some(i);
            }
            i += 1;
        }
        None
    }

    /// The in-degree of every registered node, in registry order, before any is ordered.
    fn initial_in_degrees(&self) -> (r: Vec<usize>)
        requires
            self.wf(),
        ensures
            r@.len() == self@.wiring.ids.len(),
            forall|j: int|
                0 <= j < r@.len() ==> r@[j] == self@.wiring.in_degree(
                    Seq::empty(),
                    #[trigger] self@.wiring.ids[j],
                    self@.wiring.connections.len(),
                ),
    {
        let ghost w = self@.wiring;
        let n = self.operators.len();
        let mut deg: Vec<usize> = Vec::new();
        let mut j: usize = 0;
        while j < n
            invariant
                j <= n,
                n == w.ids.len(),
                deg@.len() == j,
                forall|t: int| 0 <= t < j ==> deg@[t] == 0,
            decreases n - j,
        {
            deg.push(0);
            j += 1;
        }
        let m = self.connections.len();
        let mut i: usize = 0;
        while i < m
            invariant
                self.wf(),
                w == self@.wiring,
                m == w.connections.len(),
                i <= m,
                deg@.len() == n,
                n == w.ids.len(),
                forall|t: int|
                    0 <= t < n ==> deg@[t] == w.in_degree(Seq::empty(), #[trigger] w.ids[t], i as nat),
            decreases m - i,
        {
            let c = self.connections[i];
            let ghost before = deg@;
            if self.node_index(c.src_node_id).is_some() {
                match self.node_index(c.dst_node_id) {
                    Some(d) => {
                        proof {
                            w.lemma_in_degree_zero(Seq::empty(), w.ids[d as int], i as nat);
                        }
                        deg[d] = deg[d] + 1;
                    },
                    None => {},
                }
            }
            proof {
                assert(w.connections[i as int] == c);
                assert forall|t: int| 0 <= t < n implies deg@[t] == w.in_degree(
                    Seq::empty(),
                    #[trigger] w.ids[t],
                    i as nat + 1,
                ) by {
                    assert(!Seq::<usize>::empty().contains(c.src_node_id));
                    if c.dst_node_id == w.ids[t] && w.has_node(c.src_node_id) {
                        lemma_find_at(w.ids, t);
                    }
                }
            }
            i += 1;
        }
        deg
    }

    /// Orders registered node `u`: each node's in-degree drops by the number of
    /// connections into it from `u`.
    fn lower_in_degrees(&self, deg: &mut Vec<usize>, Ghost(done): Ghost<Seq<usize>>, u: usize)
        requires
            self.wf(),
            self@.wiring.has_node(u),
            !done.contains(u),
            old(deg)@.len() == self@.wiring.ids.len(),
            forall|j: int|
                0 <= j < old(deg)@.len() ==> old(deg)@[j] == self@.wiring.in_degree(
                    done,
                    #[trigger] self@.wiring.ids[j],
                    self@.wiring.connections.len(),
                ),
        ensures
            final(deg)@.len() == self@.wiring.ids.len(),
            forall|j: int|
                0 <= j < final(deg)@.len() ==> final(deg)@[j] == self@.wiring.in_degree(
                    done.push(u),
                    #[trigger] self@.wiring.ids[j],
                    self@.wiring.connections.len(),
                ),
    {
        let ghost w = self@.wiring;
        let n = deg.len();
        let m = self.connections.len();
        let mut i: usize = 0;
        while i < m
            invariant
                self.wf(),
                w == self@.wiring,
                m == w.connections.len(),
                i <= m,
                deg@.len() == n,
                n == w.ids.len(),
                w.has_node(u),
                !done.contains(u),
                forall|t: int|
                    0 <= t < n ==> deg@[t] == w.in_degree(done, #[trigger] w.ids[t], m as nat)
                        - w.edges_between(u, w.ids[t], i as nat),
                forall|t: int|
                    0 <= t < n ==> w.edges_between(u, #[trigger] w.ids[t], i as nat) <= w.in_degree(
                        done,
                        w.ids[t],
                        m as nat,
                    ),
            decreases m - i,
        {
            let c = self.connections[i];
            proof {
                assert(w.connections[i as int] == c);
            }
            if c.src_node_id == u {
                match self.node_index(c.dst_node_id) {
                    Some(d) => {
                        proof {
                            w.lemma_in_degree_order(done, u, w.ids[d as int], m as nat);
                            w.lemma_edges_between_mono(u, w.ids[d as int], i as nat + 1, m as nat);
                        }
                        deg[d] = deg[d] - 1;
                    },
                    None => {},
                }
            }
            proof {
                assert forall|t: int| 0 <= t < n implies deg@[t] == w.in_degree(
                    done,
                    #[trigger] w.ids[t],
                    m as nat,
                ) - w.edges_between(u, w.ids[t], i as nat + 1) && w.edges_between(
                    u,
                    w.ids[t],
                    i as nat + 1,
                ) <= w.in_degree(done, w.ids[t], m as nat) by {
                    w.lemma_in_degree_order(done, u, w.ids[t], m as nat);
                    w.lemma_edges_between_mono(u, w.ids[t], i as nat + 1, m as nat);
                    if c.src_node_id == u && c.dst_node_id == w.ids[t] {
                        lemma_find_at(w.ids, t);
                    }
                }
            }
            i += 1;
        }
        proof {
            assert forall|t: int| 0 <= t < n implies deg@[t] == w.in_degree(
                done.push(u),
                #[trigger] w.ids[t],
                m as nat,
            ) by {
                w.lemma_in_degree_order(done, u, w.ids[t], m as nat);
            }
        }
    }

    /// The first position in the registry of a node that may be ordered next: not yet
    /// ordered, and of in-degree zero.
    fn first_eligible(&self, done: &Vec<usize>, deg: &Vec<usize>) -> (r: Option<usize>)
        requires
            self.wf(),
            deg@.len() == self@.wiring.ids.len(),
            forall|j: int|
                0 <= j < deg@.len() ==> deg@[j] == self@.wiring.in_degree(
                    done@,
                    #[trigger] self@.wiring.ids[j],
                    self@.wiring.connections.len(),
                ),
        ensures
            match r {
                Some(j) => j as int == self@.wiring.first_eligible(done@, 0),
                None => self@.wiring.first_eligible(done@, 0) == -1,
            },
    {
        let ghost w = self@.wiring;
        let mut j: usize = 0;
        while j < self.operators.len()
            invariant
                j <= self.operators.len(),
                self.wf(),
                w == self@.wiring,
                deg@.len() == w.ids.len(),
                forall|t: int|
                    0 <= t < deg@.len() ==> deg@[t] == w.in_degree(
                        done@,
                        #[trigger] w.ids[t],
                        w.connections.len(),
                    ),
                w.first_eligible(done@, 0) == w.first_eligible(done@, j as int),
            decreases self.operators.len() - j,
        {
            let id = self.operators[j].id;
            proof {
                w.lemma_in_degree_zero(done@, id, w.connections.len());
            }
            if !contains_id(done, id) && deg[j] == 0 {
                return Some(j);
            }
            j += 1;
        }
        None
    }

    /// Kahn's algorithm, run for as many steps as there are nodes: each step orders the
    /// first node in the registry whose in-degree has dropped to zero.
    fn kahn_order(&self) -> (r: Vec<usize>)
        requires
            self.wf(),
        ensures
            r@ == self@.wiring.schedule(),
    {
        let ghost w = self@.wiring;
        let mut deg = self.initial_in_degrees();
        let mut done: Vec<usize> = Vec::new();
        let n = self.operators.len();
        let mut k: usize = 0;
        while k < n
            invariant
                k <= n,
                n == self.operators@.len(),
                self.wf(),
                w == self@.wiring,
                done@ == w.kahn_steps(k as nat),
                deg@.len() == w.ids.len(),
                forall|t: int|
                    0 <= t < deg@.len() ==> deg@[t] == w.in_degree(
                        done@,
                        #[trigger] w.ids[t],
                        w.connections.len(),
                    ),
            decreases n - k,
        {
            let next = self.first_eligible(&done, &deg);
            proof {
                w.lemma_first_eligible(done@, 0);
            }
            match next {
                Some(j) => {
                    let id = self.operators[j].id;
                    proof {
                        assert(w.ids[j as int] == id);
                    }
                    self.lower_in_degrees(&mut deg, Ghost(done@), id);
                    done.push(id);
                },
                None => {},
            }
            k += 1;
        }
        done
    }

    /// The registered nodes missing from `done`, in registry order.
    fn missing_nodes(&self, done: &Vec<usize>) -> (r: Vec<usize>)
        ensures
            r@ == missing_from(self@.wiring.ids, done@),
    {
        let mut r: Vec<usize> = Vec::new();
        let mut i: usize = 0;
        while i < self.operators.len()
            invariant
                i <= self.operators.len(),
                r@ == missing_from(self@.wiring.ids.take(i as int), done@),
            decreases self.operators.len() - i,
        {
            assert(self@.wiring.ids.take(i as int + 1).drop_last() =~= self@.wiring.ids.take(i as int));
            let id = self.operators[i].id;
            if !contains_id(done, id) {
                r.push(id);
            }
            i += 1;
        }
        assert(self@.wiring.ids.take(i as int) =~= self@.wiring.ids);
        r
    }

    /// Connection `c` copies its source port's value into its destination port, where
    /// both nodes and both ports exist; otherwise nothing happens.
    fn pull(&mut self, c: Connection)
        requires
            old(self).wf(),
        ensures
            final(self).wf(),
            final(self)@.wiring == old(self)@.wiring,
            final(self)@.ops == old(self)@.wiring.pull_one(old(self)@.ops, c),
    {
        let ghost m = self@;
        let ghost w = m.wiring;
        proof {
            lemma_find(w.ids, c.src_node_id);
            lemma_find(w.ids, c.dst_node_id);
        }
        let s = self.node_index(c.src_node_id);
        let d = self.node_index(c.dst_node_id);
        match (s, d) {
            (Some(s), Some(d)) => {
                let value = match self.operators[s].operator.get_output_port(c.src_port_id) {
                    Some(p) => p.value,
                    None => {
                        assert(self@.ops =~= w.pull_one(m.ops, c));
                        return ;
                    },
                };
                let ghost before = self.operators@[d as int];
                let _ = self.operators[d].operator.set_input_port(c.dst_port_id, value);
                proof {
                    assert(self.operators@[d as int].id == before.id);
                    assert(self@.wiring =~= w);
                    assert(self@.ops =~= w.pull_one(m.ops, c));
                }
            },
            _ => {
                assert(self@.ops =~= w.pull_one(m.ops, c));
            },
        }
    }

    /// The pull phase of node `v`: each connection into `v`, in insertion order, copies
    /// its source value into its destination port.
    fn update_inputs(&mut self, v: usize)
        requires
            old(self).wf(),
        ensures
            final(self).wf(),
            final(self)@.wiring == old(self)@.wiring,
            final(self)@.ops == old(self)@.wiring.pull_into(old(self)@.ops, v),
    {
        let ghost m = self@;
        let ghost w = m.wiring;
        let n = self.connections.len();
        let mut i: usize = 0;
        while i < n
            invariant
                i <= n,
                n == w.connections.len(),
                self.wf(),
                self@.wiring == w,
                self@.ops == w.pull_prefix(m.ops, v, i as nat),
            decreases n - i,
        {
            let c = self.connections[i];
            if c.dst_node_id == v {
                self.pull(c);
            }
            i += 1;
        }
    }

    /// Node `v` takes its turn: its pull phase, then its compute step.
    fn process_node(&mut self, v: usize)
        requires
            old(self).wf(),
        ensures
            final(self).wf(),
            final(self)@.wiring == old(self)@.wiring,
            final(self)@.ops == old(self)@.wiring.process(old(self)@.ops, v),
    {
        let ghost m = self@;
        let ghost w = m.wiring;
        self.update_inputs(v);
        proof {
            lemma_find(w.ids, v);
        }
        match self.node_index(v) {
            Some(d) => {
                let ghost before = self.operators@[d as int];
                self.operators[d].operator.compute();
                proof {
                    assert(self.operators@[d as int].id == before.id);
                    assert(self@.wiring =~= w);
                    assert(self@.ops =~= w.process(m.ops, v));
                }
            },
            None => {},
        }
    }

    /// One tick. Where every node can be ordered, each node in turn pulls the values of
    /// its connections and computes, and the order is returned. Where a cycle leaves
    /// some nodes unordered, no value changes and those nodes are returned.
    pub fn compute(&mut self) -> (r: Result<Vec<usize>, Vec<usize>>)
        requires
            old(self).wf(),
        ensures
            final(self).wf(),
            final(self)@ == old(self)@.pass(),
            match r {
                Ok(order) => old(self)@.wiring.schedules_fully() && order@ == old(self)@.wiring.schedule(),
                Err(rest) => !old(self)@.wiring.schedules_fully() && rest@ == missing_from(
                    old(self)@.wiring.ids,
                    old(self)@.wiring.schedule(),
                ),
            },
    {
        let ghost m = self@;
        let ghost w = m.wiring;
        let sorted = self.topological_sort();
        match sorted {
            Ok(order) => {
                let n = order.len();
                let mut k: usize = 0;
                while k < n
                    invariant
                        k <= n,
                        n == order@.len(),
                        order@ == w.schedule(),
                        self.wf(),
                        self@.wiring == w,
                        self@.ops == w.run(m.ops, order@, k as nat),
                    decreases n - k,
                {
                    self.process_node(order[k]);
                    k += 1;
                }
                assert(self@ =~= m.pass());
                Ok(order)
            },
            Err(rest) => Err(rest),
        }
    }

    /// The execution order: every node exactly once, each after the nodes it depends
    /// on, ties going to the node registered first. Where a cycle leaves some nodes
    /// unordered, those nodes in registry order.
    pub fn topological_sort(&self) -> (r: Result<Vec<usize>, Vec<usize>>)
        requires
            self.wf(),
        ensures
            match r {
                Ok(order) => self@.wiring.schedules_fully() && order@ == self@.wiring.schedule(),
                Err(rest) => !self@.wiring.schedules_fully() && rest@ == missing_from(
                    self@.wiring.ids,
                    self@.wiring.schedule(),
                ),
            },
    {
        let order = self.kahn_order();
        if order.len() == self.operators.len() {
            Ok(order)
        } else {
            let rest = self.missing_nodes(&order);
            Err(rest)
        }
    }
}

} // verus!
