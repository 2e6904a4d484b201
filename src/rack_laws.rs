use vstd::prelude::*;
use vstd::set_lib::{lemma_len_subset, lemma_subset_equality};
use vstd::seq_lib::seq_to_set_is_finite;
use crate::operator::OperatorView;
use crate::rack_model::{Connection, RackView, Wiring, find, lemma_find, lemma_find_at, unique_ids};

verus! {

/// A distinct sequence whose items all occur in a distinct sequence `b` is no longer
/// than `b`, and holds all of `b` where it is as long.
proof fn lemma_distinct_within(a: Seq<usize>, b: Seq<usize>)
    requires
        a.no_duplicates(),
        b.no_duplicates(),
        forall|k: int| 0 <= k < a.len() ==> b.contains(#[trigger] a[k]),
    ensures
        a.len() <= b.len(),
        a.len() == b.len() ==> forall|k: int| 0 <= k < b.len() ==> a.contains(#[trigger] b[k]),
{
    a.unique_seq_to_set();
    b.unique_seq_to_set();
    seq_to_set_is_finite(a);
    seq_to_set_is_finite(b);
    assert(a.to_set().subset_of(b.to_set())) by {
        assert forall|x: usize| a.to_set().contains(x) implies b.to_set().contains(x) by {
            let k = choose|k: int| 0 <= k < a.len() && a[k] == x;
            assert(b.contains(a[k]));
        }
    }
    lemma_len_subset(a.to_set(), b.to_set());
    if a.len() == b.len() {
        lemma_subset_equality(a.to_set(), b.to_set());
        assert forall|k: int| 0 <= k < b.len() implies a.contains(#[trigger] b[k]) by {
            assert(b.to_set().contains(b[k]));
            assert(a.to_set().contains(b[k]));
        }
    }
}

/// A partial order built by Kahn's algorithm: distinct registered nodes, each of
/// which was ready when it was appended.
pub open spec fn kahn_prefix(w: Wiring, s: Seq<usize>) -> bool {
    &&& s.no_duplicates()
    &&& forall|t: int| 0 <= t < s.len() ==> w.has_node(#[trigger] s[t])
    &&& forall|t: int| 0 <= t < s.len() ==> w.ready(s.take(t), #[trigger] s[t])
}

proof fn lemma_kahn_steps(w: Wiring, k: nat)
    ensures
        kahn_prefix(w, w.kahn_steps(k)),
        w.kahn_steps(k).len() <= k,
    decreases k,
{
    if k > 0 {
        let done = w.kahn_steps((k - 1) as nat);
        lemma_kahn_steps(w, (k - 1) as nat);
        w.lemma_first_eligible(done, 0);
        let j = w.first_eligible(done, 0);
        if j >= 0 {
            let s = done.push(w.ids[j]);
            assert(s.take(done.len() as int) =~= done);
            assert forall|t: int| 0 <= t < s.len() implies w.ready(s.take(t), #[trigger] s[t]) by {
                if t < done.len() {
                    assert(s.take(t) =~= done.take(t));
                    assert(s[t] == done[t]);
                }
            }
            assert forall|t: int| 0 <= t < s.len() implies w.has_node(#[trigger] s[t]) by {
                if t < done.len() {
                    assert(s[t] == done[t]);
                } else {
                    assert(s[t] == w.ids[j]);
                }
            }
        }
    }
}

/// Where every node is scheduled, the schedule is a topological order.
proof fn lemma_full_schedule_is_topological(w: Wiring)
    requires
        unique_ids(w.ids),
        w.schedules_fully(),
    ensures
        w.is_topological_order(w.schedule()),
        forall|j: int| 0 <= j < w.ids.len() ==> w.schedule().contains(#[trigger] w.ids[j]),
{
    let s = w.schedule();
    lemma_kahn_steps(w, w.ids.len());
    assert(w.ids.no_duplicates());
    lemma_distinct_within(s, w.ids);
    assert forall|i: int, a: int, b: int|
        #![trigger w.connections[i], s[a], s[b]]
        w.is_edge_at(i) && 0 <= a < s.len() && 0 <= b < s.len() && s[a]
            == w.connections[i].src_node_id && s[b] == w.connections[i].dst_node_id implies a < b by {
        assert(w.ready(s.take(b), s[b]));
        assert(s.take(b).contains(w.connections[i].src_node_id));
        let a2 = choose|a2: int| 0 <= a2 < b && s.take(b)[a2] == w.connections[i].src_node_id;
        assert(s[a2] == s[a]);
    }
}

/// With a topological order at hand, while some node is unscheduled some node is
/// eligible.
proof fn lemma_progress(w: Wiring, o: Seq<usize>, done: Seq<usize>)
    requires
        unique_ids(w.ids),
        w.is_topological_order(o),
        forall|j: int| 0 <= j < w.ids.len() ==> o.contains(#[trigger] w.ids[j]),
        kahn_prefix(w, done),
        done.len() < w.ids.len(),
    ensures
        w.first_eligible(done, 0) >= 0,
{
    assert(w.ids.no_duplicates());
    lemma_distinct_within(o, w.ids);
    // some node of o is not yet done
    if forall|a: int| 0 <= a < o.len() ==> done.contains(#[trigger] o[a]) {
        assert forall|j: int| 0 <= j < w.ids.len() implies done.contains(#[trigger] w.ids[j]) by {
            let a = choose|a: int| 0 <= a < o.len() && o[a] == w.ids[j];
            assert(done.contains(o[a]));
        }
        lemma_distinct_within(w.ids, done);
        assert(false);
    }
    let a0 = choose|a: int| 0 <= a < o.len() && !done.contains(#[trigger] o[a]);
    let a = lemma_first_undone(o, done, a0);
    let v = o[a];
    assert(w.has_node(v));
    let j = choose|j: int| 0 <= j < w.ids.len() && w.ids[j] == v;
    assert forall|i: int|
        #![trigger w.connections[i]]
        0 <= i < w.connections.len() && w.connections[i].dst_node_id == v && w.has_node(
            w.connections[i].src_node_id,
        ) implies done.contains(w.connections[i].src_node_id) by {
        let u = w.connections[i].src_node_id;
        assert(w.is_edge_at(i));
        let ju = choose|ju: int| 0 <= ju < w.ids.len() && w.ids[ju] == u;
        assert(o.contains(w.ids[ju]));
        let b = choose|b: int| 0 <= b < o.len() && o[b] == u;
        assert(b < a);
        assert(done.contains(o[b]));
    }
    assert(w.eligible(done, j));
    w.lemma_first_eligible(done, 0);
}

/// The first position of `o` at or before `a0` whose item is not in `done`.
proof fn lemma_first_undone(o: Seq<usize>, done: Seq<usize>, a0: int) -> (a: int)
    requires
        0 <= a0 < o.len(),
        !done.contains(o[a0]),
    ensures
        0 <= a <= a0,
        !done.contains(o[a]),
        forall|b: int| 0 <= b < a ==> done.contains(#[trigger] o[b]),
    decreases a0,
{
    if forall|b: int| 0 <= b < a0 ==> done.contains(#[trigger] o[b]) {
        a0
    } else {
        let b = choose|b: int| 0 <= b < a0 && !done.contains(#[trigger] o[b]);
        lemma_first_undone(o, done, b)
    }
}

proof fn lemma_acyclic_steps(w: Wiring, o: Seq<usize>, k: nat)
    requires
        unique_ids(w.ids),
        w.is_topological_order(o),
        forall|j: int| 0 <= j < w.ids.len() ==> o.contains(#[trigger] w.ids[j]),
        k <= w.ids.len(),
    ensures
        w.kahn_steps(k).len() == k,
    decreases k,
{
    if k > 0 {
        lemma_acyclic_steps(w, o, (k - 1) as nat);
        lemma_kahn_steps(w, (k - 1) as nat);
        lemma_progress(w, o, w.kahn_steps((k - 1) as nat));
    }
}

/// Every registered node occurs in a topological order.
proof fn lemma_topological_covers(w: Wiring, o: Seq<usize>)
    requires
        unique_ids(w.ids),
        w.is_topological_order(o),
    ensures
        forall|j: int| 0 <= j < w.ids.len() ==> o.contains(#[trigger] w.ids[j]),
{
    assert(w.ids.no_duplicates());
    assert forall|k: int| 0 <= k < o.len() implies w.ids.contains(#[trigger] o[k]) by {
        assert(w.has_node(o[k]));
    }
    lemma_distinct_within(o, w.ids);
}

/// A graph without cycles is scheduled fully: the order holds every registered node
/// exactly once, each after every node with a connection into it.
pub proof fn lemma_acyclic_schedules_fully(w: Wiring)
    requires
        unique_ids(w.ids),
        w.is_acyclic(),
    ensures
        w.schedules_fully(),
        w.is_topological_order(w.schedule()),
        forall|j: int| 0 <= j < w.ids.len() ==> w.schedule().contains(#[trigger] w.ids[j]),
{
    let o = choose|o: Seq<usize>| w.is_topological_order(o);
    lemma_topological_covers(w, o);
    lemma_acyclic_steps(w, o, w.ids.len());
    lemma_full_schedule_is_topological(w);
}

/// No cycle can be laid out along a topological order.
proof fn lemma_topological_no_cycle(w: Wiring, o: Seq<usize>, path: Seq<usize>)
    requires
        unique_ids(w.ids),
        w.is_topological_order(o),
    ensures
        !w.is_cycle(path),
{
    if w.is_cycle(path) {
        lemma_topological_covers(w, o);
        // the position of each node of the path in `o` grows along the path
        let pos = |x: usize| choose|a: int| 0 <= a < o.len() && o[a] == x;
        assert forall|k: int| 0 <= k < path.len() - 1 implies pos(path[k]) < pos(
            #[trigger] path[k + 1],
        ) by {
            assert(w.is_edge(path[k], path[k + 1]));
            let i = choose|i: int|
                w.is_edge_at(i) && w.connections[i].src_node_id == path[k]
                    && w.connections[i].dst_node_id == path[k + 1];
            let js = choose|j: int| 0 <= j < w.ids.len() && w.ids[j] == path[k];
            let jd = choose|j: int| 0 <= j < w.ids.len() && w.ids[j] == path[k + 1];
            assert(o.contains(w.ids[js]));
            assert(o.contains(w.ids[jd]));
            let a = pos(path[k]);
            let b = pos(path[k + 1]);
            assert(o[a] == w.connections[i].src_node_id);
            assert(o[b] == w.connections[i].dst_node_id);
        }
        lemma_increasing(path, pos, (path.len() - 1) as int);
    }
}

proof fn lemma_increasing(path: Seq<usize>, pos: spec_fn(usize) -> int, k: int)
    requires
        path.len() >= 2,
        1 <= k < path.len(),
        forall|i: int| 0 <= i < path.len() - 1 ==> pos(path[i]) < pos(#[trigger] path[i + 1]),
    ensures
        pos(path[0]) < pos(path[k]),
    decreases k,
{
    if k > 1 {
        lemma_increasing(path, pos, k - 1);
        assert(pos(path[k - 1]) < pos(path[(k - 1) + 1]));
    } else {
        assert(pos(path[0]) < pos(path[0int + 1]));
    }
}

/// A graph with a cycle is not scheduled fully, and a tick on it changes no port
/// value: it leaves the rack as it was, however often it runs.
pub proof fn lemma_cycle_blocks_pass(m: RackView)
    requires
        m.wf(),
        m.wiring.has_cycle(),
    ensures
        !m.wiring.schedules_fully(),
        m.pass() == m,
        m.pass().pass() == m,
{
    let path = choose|path: Seq<usize>| m.wiring.is_cycle(path);
    if m.wiring.schedules_fully() {
        lemma_full_schedule_is_topological(m.wiring);
        lemma_topological_no_cycle(m.wiring, m.wiring.schedule(), path);
    }
}

/// Two operators of the same kind with as many ports on each side.
pub open spec fn same_shape(a: OperatorView, b: OperatorView) -> bool {
    &&& a.kind == b.kind
    &&& a.inputs.len() == b.inputs.len()
    &&& a.outputs.len() == b.outputs.len()
}

pub open spec fn same_shapes(a: Seq<OperatorView>, b: Seq<OperatorView>) -> bool {
    &&& a.len() == b.len()
    &&& forall|j: int| 0 <= j < a.len() ==> same_shape(#[trigger] a[j], b[j])
}

/// Connection `c` carries a value into input port `p` of node `v`.
pub open spec fn feeds(w: Wiring, ops: Seq<OperatorView>, c: Connection, v: usize, p: int) -> bool {
    &&& c.dst_node_id == v
    &&& c.dst_port_id == p
    &&& w.carries(ops, c)
}

/// The position of the last of the first `k` connections that carries a value into
/// input port `p` of node `v`; -1 if none does.
pub open spec fn last_feed(w: Wiring, ops: Seq<OperatorView>, v: usize, p: int, k: nat) -> int
    decreases k,
{
    if k == 0 {
        -1
    } else if feeds(w, ops, w.connections[k - 1], v, p) {
        k - 1
    } else {
        last_feed(w, ops, v, p, (k - 1) as nat)
    }
}

/// The value that connection `c` carries: that of its source port.
pub open spec fn source_value(w: Wiring, ops: Seq<OperatorView>, c: Connection) -> i32 {
    ops[find(w.ids, c.src_node_id)].outputs[c.src_port_id as int]
}

/// Node `v` is settled in `ops`: each of its input ports holds the value of the last
/// connection that feeds it, if any does, and its outputs are what its compute step
/// makes of its inputs.
pub open spec fn node_settled(w: Wiring, ops: Seq<OperatorView>, v: usize) -> bool {
    let d = find(w.ids, v);
    0 <= d ==> {
        &&& forall|p: int|
            #![trigger ops[d].inputs[p]]
            0 <= p < ops[d].inputs.len() && 0 <= last_feed(w, ops, v, p, w.connections.len())
                ==> ops[d].inputs[p] == source_value(
                w,
                ops,
                w.connections[last_feed(w, ops, v, p, w.connections.len())],
            )
        &&& ops[d].computed() == ops[d]
    }
}

proof fn lemma_carries_shape(w: Wiring, a: Seq<OperatorView>, b: Seq<OperatorView>, c: Connection)
    requires
        same_shapes(a, b),
        a.len() == w.ids.len(),
    ensures
        w.carries(a, c) == w.carries(b, c),
{
    lemma_find(w.ids, c.src_node_id);
    lemma_find(w.ids, c.dst_node_id);
}

proof fn lemma_last_feed_shape(
    w: Wiring,
    a: Seq<OperatorView>,
    b: Seq<OperatorView>,
    v: usize,
    p: int,
    k: nat,
)
    requires
        same_shapes(a, b),
        a.len() == w.ids.len(),
        k <= w.connections.len(),
    ensures
        last_feed(w, a, v, p, k) == last_feed(w, b, v, p, k),
        -1 <= last_feed(w, a, v, p, k) < k,
        0 <= last_feed(w, a, v, p, k) ==> feeds(w, a, w.connections[last_feed(w, a, v, p, k)], v, p),
    decreases k,
{
    if k > 0 {
        lemma_carries_shape(w, a, b, w.connections[k - 1]);
        lemma_last_feed_shape(w, a, b, v, p, (k - 1) as nat);
    }
}

proof fn lemma_same_shapes_refl(a: Seq<OperatorView>)
    ensures
        same_shapes(a, a),
{
}

/// The pull phase of `v` changes only the inputs of `v`: each ends up with the value
/// of the last connection that feeds it.
proof fn lemma_pull_prefix(w: Wiring, ops: Seq<OperatorView>, v: usize, k: nat)
    requires
        unique_ids(w.ids),
        ops.len() == w.ids.len(),
        k <= w.connections.len(),
    ensures
        ({
            let r = w.pull_prefix(ops, v, k);
            let d = find(w.ids, v);
            &&& same_shapes(r, ops)
            &&& forall|j: int| 0 <= j < r.len() && j != d ==> r[j] == ops[j]
            &&& forall|j: int| 0 <= j < r.len() ==> (#[trigger] r[j]).outputs == ops[j].outputs
            &&& 0 <= d ==> forall|p: int|
                #![trigger r[d].inputs[p]]
                0 <= p < ops[d].inputs.len() ==> r[d].inputs[p] == if 0 <= last_feed(
                    w,
                    ops,
                    v,
                    p,
                    k,
                ) {
                    source_value(w, ops, w.connections[last_feed(w, ops, v, p, k)])
                } else {
                    ops[d].inputs[p]
                }
        }),
    decreases k,
{
    lemma_find(w.ids, v);
    if k > 0 {
        lemma_pull_prefix(w, ops, v, (k - 1) as nat);
        let prev = w.pull_prefix(ops, v, (k - 1) as nat);
        let c = w.connections[k - 1];
        let r = w.pull_prefix(ops, v, k);
        let d = find(w.ids, v);
        lemma_carries_shape(w, prev, ops, c);
        lemma_find(w.ids, c.src_node_id);
        lemma_find(w.ids, c.dst_node_id);
        if c.dst_node_id == v && w.carries(prev, c) {
            let s = find(w.ids, c.src_node_id);
            assert(r == prev.update(d, prev[d].with_input(c.dst_port_id as int, prev[s].outputs[c.src_port_id as int])));
            assert(prev[s].outputs == ops[s].outputs);
            assert forall|p: int|
                #![trigger r[d].inputs[p]]
                0 <= p < ops[d].inputs.len() implies r[d].inputs[p] == if 0 <= last_feed(
                    w,
                    ops,
                    v,
                    p,
                    k,
                ) {
                    source_value(w, ops, w.connections[last_feed(w, ops, v, p, k)])
                } else {
                    ops[d].inputs[p]
                } by {
                if p == c.dst_port_id {
                    assert(feeds(w, ops, c, v, p));
                } else {
                    assert(!feeds(w, ops, c, v, p));
                    assert(r[d].inputs[p] == prev[d].inputs[p]);
                }
            }
        } else {
            assert forall|p: int| 0 <= p < ops[d].inputs.len() implies !feeds(w, ops, c, v, p) by {}
        }
    }
}

/// A node's turn changes only that node, keeps the shape of every node, and leaves
/// the node settled where no connection runs from it into itself.
proof fn lemma_process(w: Wiring, ops: Seq<OperatorView>, v: usize)
    requires
        unique_ids(w.ids),
        ops.len() == w.ids.len(),
    ensures
        ({
            let r = w.process(ops, v);
            let d = find(w.ids, v);
            &&& same_shapes(r, ops)
            &&& forall|j: int| 0 <= j < r.len() && j != d ==> r[j] == ops[j]
            &&& (forall|i: int|
                #![trigger w.connections[i]]
                0 <= i < w.connections.len() && w.connections[i].dst_node_id == v && w.has_node(
                    w.connections[i].src_node_id,
                ) ==> w.connections[i].src_node_id != v) ==> node_settled(w, r, v)
        }),
{
    let n = w.connections.len();
    let pulled = w.pull_into(ops, v);
    let r = w.process(ops, v);
    let d = find(w.ids, v);
    lemma_find(w.ids, v);
    lemma_pull_prefix(w, ops, v, n);
    if 0 <= d {
        assert(same_shapes(r, ops));
        if forall|i: int|
            #![trigger w.connections[i]]
            0 <= i < w.connections.len() && w.connections[i].dst_node_id == v && w.has_node(
                w.connections[i].src_node_id,
            ) ==> w.connections[i].src_node_id != v {
            assert forall|p: int|
                #![trigger r[d].inputs[p]]
                0 <= p < r[d].inputs.len() && 0 <= last_feed(w, r, v, p, n) implies r[d].inputs[p]
                == source_value(w, r, w.connections[last_feed(w, r, v, p, n)]) by {
                lemma_last_feed_shape(w, r, ops, v, p, n);
                let l = last_feed(w, r, v, p, n);
                let c = w.connections[l];
                assert(feeds(w, ops, c, v, p));
                lemma_find(w.ids, c.src_node_id);
                let s = find(w.ids, c.src_node_id);
                assert(w.has_node(c.src_node_id));
                assert(c.src_node_id != v);
                assert(s != d);
                assert(r[s] == ops[s]);
            }
            assert(r[d].computed() =~= r[d]);
        }
    } else {
        assert(same_shapes(r, ops));
    }
}

/// A settled node stays settled when another node changes, if that node is not the
/// source of a connection into it and keeps its shape.
proof fn lemma_settled_frame(
    w: Wiring,
    a: Seq<OperatorView>,
    b: Seq<OperatorView>,
    v: usize,
    u: usize,
)
    requires
        unique_ids(w.ids),
        a.len() == w.ids.len(),
        same_shapes(a, b),
        w.has_node(u),
        u != v,
        forall|j: int| 0 <= j < a.len() && j != find(w.ids, u) ==> a[j] == b[j],
        forall|i: int|
            #![trigger w.connections[i]]
            0 <= i < w.connections.len() && w.connections[i].dst_node_id == v
                ==> w.connections[i].src_node_id != u,
        node_settled(w, a, v),
    ensures
        node_settled(w, b, v),
{
    let n = w.connections.len();
    let d = find(w.ids, v);
    let e = find(w.ids, u);
    lemma_find(w.ids, v);
    lemma_find(w.ids, u);
    if 0 <= d {
        assert(d != e);
        assert(b[d] == a[d]);
        assert forall|p: int|
            #![trigger b[d].inputs[p]]
            0 <= p < b[d].inputs.len() && 0 <= last_feed(w, b, v, p, n) implies b[d].inputs[p]
            == source_value(w, b, w.connections[last_feed(w, b, v, p, n)]) by {
            lemma_last_feed_shape(w, a, b, v, p, n);
            let l = last_feed(w, a, v, p, n);
            let c = w.connections[l];
            assert(a[d].inputs[p] == source_value(w, a, c));
            lemma_find(w.ids, c.src_node_id);
            let s = find(w.ids, c.src_node_id);
            assert(c.src_node_id != u);
            assert(s != e);
        }
    }
}

/// In a topological order no connection runs from a node into itself, and none runs
/// from a later node into an earlier one.
proof fn lemma_order_edges(w: Wiring, o: Seq<usize>, a: int, b: int, i: int)
    requires
        w.is_topological_order(o),
        0 <= a < o.len(),
        0 <= b < o.len(),
        b <= a,
        0 <= i < w.connections.len(),
        w.connections[i].dst_node_id == o[b],
    ensures
        w.connections[i].src_node_id != o[a],
{
    if w.connections[i].src_node_id == o[a] {
        assert(w.has_node(o[a]));
        assert(w.has_node(o[b]));
        assert(w.is_edge_at(i));
    }
}

/// Along a full schedule, each node that has taken its turn is settled, and every
/// node keeps its shape.
proof fn lemma_run_settles(w: Wiring, ops: Seq<OperatorView>, k: nat)
    requires
        unique_ids(w.ids),
        ops.len() == w.ids.len(),
        w.schedules_fully(),
        k <= w.ids.len(),
    ensures
        same_shapes(w.run(ops, w.schedule(), k), ops),
        forall|t: int|
            0 <= t < k ==> node_settled(w, w.run(ops, w.schedule(), k), #[trigger] w.schedule()[t]),
    decreases k,
{
    let o = w.schedule();
    lemma_full_schedule_is_topological(w);
    if k > 0 {
        lemma_run_settles(w, ops, (k - 1) as nat);
        let prev = w.run(ops, o, (k - 1) as nat);
        let cur = w.run(ops, o, k);
        let u = o[k - 1];
        lemma_process(w, prev, u);
        assert forall|i: int|
            #![trigger w.connections[i]]
            0 <= i < w.connections.len() && w.connections[i].dst_node_id == u && w.has_node(
                w.connections[i].src_node_id,
            ) implies w.connections[i].src_node_id != u by {
            lemma_order_edges(w, o, k - 1, k - 1, i);
        }
        assert forall|t: int| 0 <= t < k implies node_settled(w, cur, #[trigger] o[t]) by {
            if t < k - 1 {
                assert forall|i: int|
                    #![trigger w.connections[i]]
                    0 <= i < w.connections.len() && w.connections[i].dst_node_id == o[t]
                        implies w.connections[i].src_node_id != u by {
                    lemma_order_edges(w, o, k - 1, t, i);
                }
                assert(w.has_node(u));
                lemma_settled_frame(w, prev, cur, o[t], u);
            }
        }
    } else {
        lemma_same_shapes_refl(ops);
    }
}

/// A node's turn leaves a settled node where it is.
proof fn lemma_settled_process(w: Wiring, ops: Seq<OperatorView>, v: usize)
    requires
        unique_ids(w.ids),
        ops.len() == w.ids.len(),
        node_settled(w, ops, v),
    ensures
        w.process(ops, v) == ops,
{
    let n = w.connections.len();
    let d = find(w.ids, v);
    let pulled = w.pull_into(ops, v);
    lemma_find(w.ids, v);
    lemma_pull_prefix(w, ops, v, n);
    if 0 <= d {
        assert forall|p: int| 0 <= p < ops[d].inputs.len() implies pulled[d].inputs[p]
            == ops[d].inputs[p] by {
            lemma_same_shapes_refl(ops);
            lemma_last_feed_shape(w, ops, ops, v, p, n);
            assert(ops[d].inputs[p] == ops[d].inputs[p]);
        }
        assert(pulled[d] =~= ops[d]);
        assert(w.process(ops, v) =~= ops);
    } else {
        assert(pulled =~= ops);
    }
}

/// Turns of settled nodes change nothing.
proof fn lemma_run_settled(w: Wiring, ops: Seq<OperatorView>, o: Seq<usize>, k: nat)
    requires
        unique_ids(w.ids),
        ops.len() == w.ids.len(),
        k <= o.len(),
        forall|t: int| 0 <= t < k ==> node_settled(w, ops, #[trigger] o[t]),
    ensures
        w.run(ops, o, k) == ops,
    decreases k,
{
    if k > 0 {
        lemma_run_settled(w, ops, o, (k - 1) as nat);
        lemma_settled_process(w, ops, o[k - 1]);
    }
}

/// After a tick on a graph without cycles, every node is settled: each input port
/// that a connection feeds holds the value of the last such connection's source, and
/// each adder's outputs hold the sum of its inputs.
pub proof fn lemma_pass_settles(m: RackView)
    requires
        m.wf(),
        m.wiring.is_acyclic(),
    ensures
        forall|j: int|
            0 <= j < m.wiring.ids.len() ==> node_settled(m.wiring, m.pass().ops, #[trigger] m.wiring.ids[j]),
{
    let w = m.wiring;
    lemma_acyclic_schedules_fully(w);
    lemma_run_settles(w, m.ops, w.ids.len());
    assert forall|j: int| 0 <= j < w.ids.len() implies node_settled(w, m.pass().ops, #[trigger] w.ids[j]) by {
        let t = choose|t: int| 0 <= t < w.schedule().len() && w.schedule()[t] == w.ids[j];
        assert(node_settled(w, m.pass().ops, w.schedule()[t]));
    }
}

/// A second tick, with nothing changed in between, gives the same rack as the first:
/// in particular the same values at the output boundary.
pub proof fn lemma_pass_deterministic(m: RackView)
    requires
        m.wf(),
    ensures
        m.pass().pass() == m.pass(),
{
    let w = m.wiring;
    if w.schedules_fully() {
        lemma_run_settles(w, m.ops, w.ids.len());
        let fin = m.pass().ops;
        lemma_run_settled(w, fin, w.schedule(), w.ids.len());
        assert(m.pass().pass() =~= m.pass());
    }
}

/// Fan-in: where several connections carry values into one input port, after a tick
/// on a graph without cycles the port holds the value of the one registered last among
/// those whose nodes and ports exist.
pub proof fn lemma_last_writer_wins(m: RackView, i: int)
    requires
        m.wf(),
        m.wiring.is_acyclic(),
        0 <= i < m.wiring.connections.len(),
        m.wiring.carries(m.ops, m.wiring.connections[i]),
        forall|j: int|
            #![trigger m.wiring.connections[j]]
            i < j < m.wiring.connections.len() && m.wiring.connections[j].dst_node_id
                == m.wiring.connections[i].dst_node_id && m.wiring.connections[j].dst_port_id
                == m.wiring.connections[i].dst_port_id ==> !m.wiring.carries(
                m.ops,
                m.wiring.connections[j],
            ),
    ensures
        ({
            let c = m.wiring.connections[i];
            m.pass().node(c.dst_node_id).inputs[c.dst_port_id as int] == m.pass().node(
                c.src_node_id,
            ).outputs[c.src_port_id as int]
        }),
{
    let w = m.wiring;
    let c = w.connections[i];
    let n = w.connections.len();
    let fin = m.pass().ops;
    lemma_acyclic_schedules_fully(w);
    lemma_run_settles(w, m.ops, w.ids.len());
    lemma_pass_settles(m);
    lemma_find(w.ids, c.dst_node_id);
    let d = find(w.ids, c.dst_node_id);
    assert(w.has_node(c.dst_node_id));
    let jd = choose|jd: int| 0 <= jd < w.ids.len() && w.ids[jd] == c.dst_node_id;
    assert(node_settled(w, fin, w.ids[jd]));
    lemma_last_feed_at(w, m.ops, c.dst_node_id, c.dst_port_id as int, n as nat, i);
    lemma_last_feed_shape(w, fin, m.ops, c.dst_node_id, c.dst_port_id as int, n as nat);
    assert(fin[d].inputs[c.dst_port_id as int] == source_value(w, fin, c));
}

proof fn lemma_last_feed_at(w: Wiring, ops: Seq<OperatorView>, v: usize, p: int, k: nat, i: int)
    requires
        0 <= i < k <= w.connections.len(),
        feeds(w, ops, w.connections[i], v, p),
        forall|j: int|
            #![trigger w.connections[j]]
            i < j < k && w.connections[j].dst_node_id == v && w.connections[j].dst_port_id == p
                ==> !w.carries(ops, w.connections[j]),
    ensures
        last_feed(w, ops, v, p, k) == i,
    decreases k,
{
    if k - 1 > i {
        lemma_last_feed_at(w, ops, v, p, (k - 1) as nat, i);
    }
}

/// Turns taken after step `k1` leave the nodes that took theirs before it unchanged.
proof fn lemma_run_frame(w: Wiring, ops: Seq<OperatorView>, k1: nat, k2: nat, a: int)
    requires
        unique_ids(w.ids),
        ops.len() == w.ids.len(),
        w.schedules_fully(),
        0 <= a < k1 <= k2 <= w.ids.len(),
    ensures
        ({
            let o = w.schedule();
            let x = find(w.ids, o[a]);
            w.run(ops, o, k2)[x] == w.run(ops, o, k1)[x]
        }),
    decreases k2,
{
    let o = w.schedule();
    lemma_full_schedule_is_topological(w);
    if k2 > k1 {
        lemma_run_frame(w, ops, k1, (k2 - 1) as nat, a);
        lemma_run_settles(w, ops, (k2 - 1) as nat);
        let prev = w.run(ops, o, (k2 - 1) as nat);
        lemma_process(w, prev, o[k2 - 1]);
        assert(w.has_node(o[a]));
        assert(w.has_node(o[k2 - 1]));
        lemma_find(w.ids, o[a]);
        lemma_find(w.ids, o[k2 - 1]);
        assert(o[a] != o[k2 - 1]);
    }
}

/// Freshness: when a node of a graph without cycles computes, each input port that a
/// connection feeds holds the value that the last such connection's source has at the
/// end of the tick, and that source has already taken its turn in the tick.
pub proof fn lemma_fresh_inputs(m: RackView, t: int, p: int)
    requires
        m.wf(),
        m.wiring.is_acyclic(),
        0 <= t < m.wiring.ids.len(),
        ({
            let v = m.wiring.schedule()[t];
            let l = last_feed(m.wiring, m.ops, v, p, m.wiring.connections.len());
            0 <= l
        }),
    ensures
        ({
            let w = m.wiring;
            let o = w.schedule();
            let v = o[t];
            let c = w.connections[last_feed(w, m.ops, v, p, w.connections.len())];
            let seen = w.pull_into(w.run(m.ops, o, t as nat), v);
            &&& seen[find(w.ids, v)].inputs[p] == source_value(w, m.pass().ops, c)
            &&& o.take(t).contains(c.src_node_id)
        }),
{
    let w = m.wiring;
    let n = w.connections.len();
    lemma_acyclic_schedules_fully(w);
    lemma_full_schedule_is_topological(w);
    let o = w.schedule();
    let v = o[t];
    let before = w.run(m.ops, o, t as nat);
    lemma_run_settles(w, m.ops, t as nat);
    lemma_last_feed_shape(w, before, m.ops, v, p, n);
    let l = last_feed(w, m.ops, v, p, n);
    let c = w.connections[l];
    lemma_pull_prefix(w, before, v, n);
    lemma_find(w.ids, v);
    lemma_find(w.ids, c.src_node_id);
    assert(w.has_node(v));
    let u = c.src_node_id;
    assert(w.has_node(u));
    assert(w.is_edge_at(l));
    let ju = choose|ju: int| 0 <= ju < w.ids.len() && w.ids[ju] == u;
    assert(o.contains(w.ids[ju]));
    let a = choose|a: int| 0 <= a < o.len() && o[a] == u;
    assert(a < t);
    assert(o.take(t)[a] == u);
    lemma_run_frame(w, m.ops, t as nat, w.ids.len(), a);
}

} // verus!
