use vstd::prelude::*;

verus! {

/// A single value slot owned by one operator.
#[derive(Clone, Copy, Debug, PartialEq, Eq, Structural)]
pub struct Port {
    pub value: i32,
}

/// The kind of an operator, as the scheduler sees it.
#[derive(Clone, Copy, Debug, PartialEq, Eq, Structural)]
pub enum OperatorKind {
    Input,
    Output,
    Add,
}

/// What an operator holds: its kind and the values of its input and output ports,
/// indexed by port id.
#[verifier::ext_equal]
pub struct OperatorView {
    pub kind: OperatorKind,
    pub inputs: Seq<i32>,
    pub outputs: Seq<i32>,
}

/// The values held by a sequence of ports.
pub open spec fn port_values(ports: Seq<Port>) -> Seq<i32> {
    ports.map_values(|p: Port| p.value)
}

/// The sum of the values, wrapping around on overflow, added from the first.
pub open spec fn wrapping_sum(s: Seq<i32>) -> i32
    decreases s.len(),
{
    if s.len() == 0 {
        0
    } else {
        wrapping_sum(s.drop_last()).wrapping_add(s.last())
    }
}

impl OperatorView {
    /// The operator after its compute step: an adder writes the sum of its inputs into
    /// every output; the boundary operators do nothing.
    pub open spec fn computed(self) -> OperatorView {
        match self.kind {
            OperatorKind::Add => OperatorView {
                outputs: Seq::new(self.outputs.len(), |i: int| wrapping_sum(self.inputs)),
                ..self
            },
            _ => self,
        }
    }

    /// The operator with input port `port` set to `value`.
    pub open spec fn with_input(self, port: int, value: i32) -> OperatorView {
        OperatorView { inputs: self.inputs.update(port, value), ..self }
    }
}

/// Adds its inputs: two input ports, one output port.
pub struct OperatorAdd {
    pub input_ports: Vec<Port>,
    pub output_ports: Vec<Port>,
}

/// The boundary node through which values enter the rack: one output port per track.
pub struct OperatorInput {
    pub output_ports: Vec<Port>,
}

/// The boundary node from which the rack's results are read: one input port per track.
pub struct OperatorOutput {
    pub input_ports: Vec<Port>,
}

/// A node of the rack.
pub enum Operator {
    Input(OperatorInput),
    Output(OperatorOutput),
    Add(OperatorAdd),
}

impl View for Operator {
    type V = OperatorView;

    open spec fn view(&self) -> OperatorView {
        match self {
            Operator::Input(op) => OperatorView {
                kind: OperatorKind::Input,
                inputs: Seq::empty(),
                outputs: port_values(op.output_ports@),
            },
            Operator::Output(op) => OperatorView {
                kind: OperatorKind::Output,
                inputs: port_values(op.input_ports@),
                outputs: Seq::empty(),
            },
            Operator::Add(op) => OperatorView {
                kind: OperatorKind::Add,
                inputs: port_values(op.input_ports@),
                outputs: port_values(op.output_ports@),
            },
        }
    }
}

fn zero_ports(n: usize) -> (r: Vec<Port>)
    ensures
        port_values(r@) == Seq::new(n as nat, |i: int| 0i32),
{
    let mut r: Vec<Port> = Vec::new();
    let mut i: usize = 0;
    while i < n
        invariant
            i <= n,
            r@.len() == i,
            forall|k: int| 0 <= k < i ==> r@[k].value == 0,
        decreases n - i,
    {
        r.push(Port { value: 0 });
        i += 1;
    }
    assert(port_values(r@) =~= Seq::new(n as nat, |k: int| 0i32));
    r
}

impl OperatorAdd {
    /// An adder with two input ports and one output port, all holding 0.
    pub fn new() -> (r: OperatorAdd)
        ensures
            port_values(r.input_ports@) == seq![0i32, 0i32],
            port_values(r.output_ports@) == seq![0i32],
    {
        let input_ports = zero_ports(2);
        let output_ports = zero_ports(1);
        assert(Seq::new(2, |i: int| 0i32) =~= seq![0i32, 0i32]);
        assert(Seq::new(1, |i: int| 0i32) =~= seq![0i32]);
        OperatorAdd { input_ports, output_ports }
    }
}

impl OperatorInput {
    /// An input boundary with `tracks` output ports, all holding 0.
    pub fn new(tracks: usize) -> (r: OperatorInput)
        ensures
            port_values(r.output_ports@) == Seq::new(tracks as nat, |i: int| 0i32),
    {
        OperatorInput { output_ports: zero_ports(tracks) }
    }
}

impl OperatorOutput {
    /// An output boundary with `tracks` input ports, all holding 0.
    pub fn new(tracks: usize) -> (r: OperatorOutput)
        ensures
            port_values(r.input_ports@) == Seq::new(tracks as nat, |i: int| 0i32),
    {
        OperatorOutput { input_ports: zero_ports(tracks) }
    }
}

fn sum_ports(ports: &Vec<Port>) -> (r: i32)
    ensures
        r == wrapping_sum(port_values(ports@)),
{
    let mut total: i32 = 0;
    let mut i: usize = 0;
    while i < ports.len()
        invariant
            i <= ports.len(),
            total == wrapping_sum(port_values(ports@).take(i as int)),
        decreases ports.len() - i,
    {
        proof {
            let s = port_values(ports@);
            assert(s.take(i as int + 1).drop_last() =~= s.take(i as int));
        }
        total = total.wrapping_add(ports[i].value);
        i += 1;
    }
    assert(port_values(ports@).take(i as int) =~= port_values(ports@));
    total
}

fn fill_ports(ports: &mut Vec<Port>, value: i32)
    ensures
        port_values(final(ports)@) == Seq::new(old(ports)@.len(), |i: int| value),
{
    let n = ports.len();
    let mut i: usize = 0;
    while i < n
        invariant
            i <= n,
            ports@.len() == n,
            forall|k: int| 0 <= k < i ==> ports@[k].value == value,
        decreases n - i,
    {
        ports[i] = Port { value };
        i += 1;
    }
    assert(port_values(ports@) =~= Seq::new(n as nat, |i: int| value));
}

fn port_at(ports: &Vec<Port>, port_id: usize) -> (r: Option<&Port>)
    ensures
        r.is_some() == (port_id < ports@.len()),
        r.is_some() ==> r.unwrap().value == port_values(ports@)[port_id as int],
{
    if port_id < ports.len() {
        Some(&ports[port_id])
    } else {
        None
    }
}

fn set_port(ports: &mut Vec<Port>, port_id: usize, value: i32) -> (r: bool)
    ensures
        r == (port_id < old(ports)@.len()),
        port_values(final(ports)@) == if r {
            port_values(old(ports)@).update(port_id as int, value)
        } else {
            port_values(old(ports)@)
        },
{
    if port_id < ports.len() {
        ports[port_id] = Port { value };
        assert(port_values(ports@) =~= port_values(old(ports)@).update(port_id as int, value));
        true
    } else {
        false
    }
}

impl Operator {
    /// Runs the operator's step: an adder writes the sum of its inputs into each of its
    /// outputs; the boundary nodes do nothing.
    pub fn compute(&mut self)
        ensures
            final(self)@ == old(self)@.computed(),
    {
        match self {
            Operator::Add(op) => {
                let total = sum_ports(&op.input_ports);
                fill_ports(&mut op.output_ports, total);
            },
            _ => {},
        }
    }

    /// The input port `port_id`, if the operator has one.
    pub fn get_input_port(&self, port_id: usize) -> (r: Option<&Port>)
        ensures
            r.is_some() == (port_id < self@.inputs.len()),
            r.is_some() ==> r.unwrap().value == self@.inputs[port_id as int],
    {
        match self {
            Operator::Input(_) => None,
            Operator::Output(op) => port_at(&op.input_ports, port_id),
            Operator::Add(op) => port_at(&op.input_ports, port_id),
        }
    }

    /// The output port `port_id`, if the operator has one.
    pub fn get_output_port(&self, port_id: usize) -> (r: Option<&Port>)
        ensures
            r.is_some() == (port_id < self@.outputs.len()),
            r.is_some() ==> r.unwrap().value == self@.outputs[port_id as int],
    {
        match self {
            Operator::Input(op) => port_at(&op.output_ports, port_id),
            Operator::Output(_) => None,
            Operator::Add(op) => port_at(&op.output_ports, port_id),
        }
    }

    /// Writes `value` into input port `port_id`; false, and nothing changes, where the
    /// operator has no such port.
    pub fn set_input_port(&mut self, port_id: usize, value: i32) -> (r: bool)
        ensures
            r == (port_id < old(self)@.inputs.len()),
            final(self)@ == if r {
                old(self)@.with_input(port_id as int, value)
            } else {
                old(self)@
            },
    {
        match self {
            Operator::Input(_) => false,
            Operator::Output(op) => set_port(&mut op.input_ports, port_id, value),
            Operator::Add(op) => set_port(&mut op.input_ports, port_id, value),
        }
    }

    /// Writes `value` into output port `port_id`; false, and nothing changes, where the
    /// operator has no such port.
    pub fn set_output_port(&mut self, port_id: usize, value: i32) -> (r: bool)
        ensures
            r == (port_id < old(self)@.outputs.len()),
            final(self)@ == if r {
                OperatorView {
                    outputs: old(self)@.outputs.update(port_id as int, value),
                    ..old(self)@
                }
            } else {
                old(self)@
            },
    {
        match self {
            Operator::Input(op) => set_port(&mut op.output_ports, port_id, value),
            Operator::Output(_) => false,
            Operator::Add(op) => set_port(&mut op.output_ports, port_id, value),
        }
    }
}

} // verus!
