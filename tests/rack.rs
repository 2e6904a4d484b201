use wave_rack::operator::{Operator, OperatorAdd, OperatorInput, OperatorOutput, Port};
use wave_rack::operator_rack::{OperatorRack, INPUT_NODE_ID, OUTPUT_NODE_ID};

fn adder_rack() -> OperatorRack {
    let mut rack = OperatorRack::new(2);
    assert!(rack.add_node(2, Operator::Add(OperatorAdd::new())).is_none());
    rack.connect(INPUT_NODE_ID, 0, 2, 0);
    rack.connect(INPUT_NODE_ID, 1, 2, 1);
    rack.connect(2, 0, OUTPUT_NODE_ID, 0);
    rack
}

fn position(order: &[usize], id: usize) -> usize {
    order.iter().position(|&x| x == id).unwrap()
}

#[test]
fn adder_between_boundaries() {
    let mut rack = adder_rack();
    assert!(rack.set_track_input(0, 10));
    assert!(rack.set_track_input(1, 20));
    let order = rack.compute().unwrap();
    assert_eq!(rack.track_output(0), Some(30));
    assert!(position(&order, INPUT_NODE_ID) < position(&order, 2));
    assert!(position(&order, 2) < position(&order, OUTPUT_NODE_ID));
    assert_eq!(order, vec![0, 2, 1]);
}

#[test]
fn self_cycle_changes_nothing() {
    let mut rack = adder_rack();
    rack.set_track_input(0, 10);
    rack.set_track_input(1, 20);
    rack.compute().unwrap();
    assert_eq!(rack.track_output(0), Some(30));
    rack.connect(2, 0, 2, 0);
    rack.set_track_input(0, 1);
    rack.set_track_input(1, 2);
    let unscheduled = rack.compute().unwrap_err();
    assert_eq!(unscheduled, vec![1, 2]);
    assert_eq!(rack.track_output(0), Some(30));
    assert_eq!(rack.track_output(1), Some(0));
    assert_eq!(rack.output_value(2, 0), Some(30));
    assert_eq!(rack.input_value(2, 0), Some(10));
    // a second call is a no-op as well
    assert!(rack.compute().is_err());
    assert_eq!(rack.track_output(0), Some(30));
}

#[test]
fn longer_cycle_changes_nothing() {
    let mut rack = OperatorRack::new(1);
    rack.add_node(2, Operator::Add(OperatorAdd::new()));
    rack.add_node(3, Operator::Add(OperatorAdd::new()));
    rack.connect(0, 0, 2, 0);
    rack.connect(2, 0, 3, 0);
    rack.connect(3, 0, 2, 1);
    rack.connect(3, 0, 1, 0);
    rack.set_track_input(0, 7);
    assert_eq!(rack.topological_sort(), Err(vec![1, 2, 3]));
    assert!(rack.compute().is_err());
    assert_eq!(rack.track_output(0), Some(0));
    assert_eq!(rack.input_value(2, 0), Some(0));
}

#[test]
fn acyclic_schedule_holds_every_node_after_its_sources() {
    let mut rack = OperatorRack::new(1);
    // registered before the nodes they depend on
    rack.add_node(5, Operator::Add(OperatorAdd::new()));
    rack.add_node(4, Operator::Add(OperatorAdd::new()));
    rack.add_node(3, Operator::Add(OperatorAdd::new()));
    rack.connect(4, 0, 5, 0);
    rack.connect(3, 0, 4, 0);
    rack.connect(0, 0, 3, 0);
    rack.connect(5, 0, 1, 0);
    let order = rack.topological_sort().unwrap();
    assert_eq!(order.len(), 5);
    assert_eq!(order, vec![0, 3, 4, 5, 1]);
    for c in &rack.connections {
        assert!(position(&order, c.src_node_id) < position(&order, c.dst_node_id));
    }
}

#[test]
fn chain_carries_values_in_one_pass() {
    let mut rack = OperatorRack::new(1);
    rack.add_node(5, Operator::Add(OperatorAdd::new()));
    rack.add_node(4, Operator::Add(OperatorAdd::new()));
    rack.connect(4, 0, 5, 0);
    rack.connect(0, 0, 4, 0);
    rack.connect(0, 0, 4, 1);
    rack.connect(0, 0, 5, 1);
    rack.connect(5, 0, 1, 0);
    rack.set_track_input(0, 3);
    rack.compute().unwrap();
    // 4 computes 3 + 3; 5 reads that fresh value and adds 3
    assert_eq!(rack.output_value(4, 0), Some(6));
    assert_eq!(rack.track_output(0), Some(9));
}

#[test]
fn consecutive_passes_agree() {
    let mut rack = adder_rack();
    rack.set_track_input(0, -4);
    rack.set_track_input(1, 11);
    rack.compute().unwrap();
    let first = (rack.track_output(0), rack.track_output(1));
    rack.compute().unwrap();
    let second = (rack.track_output(0), rack.track_output(1));
    assert_eq!(first, second);
    assert_eq!(first, (Some(7), Some(0)));
}

#[test]
fn last_connection_into_a_port_wins() {
    let mut rack = OperatorRack::new(2);
    rack.connect(0, 0, 1, 0);
    rack.connect(0, 1, 1, 0);
    rack.set_track_input(0, 5);
    rack.set_track_input(1, 8);
    rack.compute().unwrap();
    assert_eq!(rack.track_output(0), Some(8));
}

#[test]
fn dangling_connection_after_valid_one_does_not_win() {
    let mut rack = OperatorRack::new(2);
    rack.connect(0, 0, 1, 0);
    rack.connect(0, 9, 1, 0);
    rack.connect(7, 0, 1, 1);
    rack.set_track_input(0, 5);
    rack.compute().unwrap();
    assert_eq!(rack.track_output(0), Some(5));
    assert_eq!(rack.track_output(1), Some(0));
    assert_eq!(rack.dangling_connections(), vec![1, 2]);
}

#[test]
fn adder_wraps_on_overflow() {
    let mut rack = adder_rack();
    rack.set_track_input(0, i32::MAX);
    rack.set_track_input(1, 1);
    rack.compute().unwrap();
    assert_eq!(rack.track_output(0), Some(i32::MIN));
}

#[test]
fn add_node_replaces_and_returns_previous() {
    let mut rack = adder_rack();
    let previous = rack.add_node(2, Operator::Output(OperatorOutput::new(2)));
    assert!(matches!(previous, Some(Operator::Add(_))));
    assert_eq!(rack.operators.len(), 3);
    assert_eq!(rack.dangling_connections(), vec![2]);
}

#[test]
fn new_rack_has_boundaries_only() {
    let rack = OperatorRack::new(3);
    assert_eq!(rack.operators.len(), 2);
    assert!(rack.connections.is_empty());
    assert_eq!(rack.track_output(2), Some(0));
    assert_eq!(rack.track_output(3), None);
    assert_eq!(rack.output_value(INPUT_NODE_ID, 2), Some(0));
    assert_eq!(rack.input_value(INPUT_NODE_ID, 0), None);
}

#[test]
fn track_input_out_of_range_is_refused() {
    let mut rack = OperatorRack::new(1);
    assert!(!rack.set_track_input(1, 4));
    assert!(rack.set_track_input(0, 4));
    assert_eq!(rack.output_value(INPUT_NODE_ID, 0), Some(4));
}

#[test]
fn operator_ports() {
    let mut add = Operator::Add(OperatorAdd::new());
    assert!(add.set_input_port(0, 2));
    assert!(add.set_input_port(1, 40));
    assert!(!add.set_input_port(2, 1));
    add.compute();
    assert_eq!(add.get_output_port(0), Some(&Port { value: 42 }));
    assert_eq!(add.get_output_port(1), None);
    let input = Operator::Input(OperatorInput::new(2));
    assert_eq!(input.get_input_port(0), None);
    assert_eq!(input.get_output_port(1), Some(&Port { value: 0 }));
}
