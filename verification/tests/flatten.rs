use logix::circuit::{Circuit, SubCircuit};
use logix::component::Conn;
use logix::sim::errors::{ComponentRequestError, DataRequestError};
use logix::sim::flatten::{flat_comp, FlattenComponent, NestedConfig};
use logix::sim::primitives::data::Data;
use logix::sim::primitives::primitive::{ExtraInfo, Primitive};
use logix::sim::reindex::{fix_inputs_data_addrs, reindex_connections};
use logix::sim::simulator::{SimAction, SimState};

fn prim(id: usize, name: &str, p: Primitive, inputs: usize, outputs: usize) -> Circuit {
    Circuit {
        id,
        name: Some(name.to_string()),
        inputs,
        outputs,
        sub: None,
        extra: ExtraInfo::from_primitive(id, p),
    }
}

fn composed(
    id: usize,
    name: &str,
    components: Vec<Circuit>,
    connections: Vec<Conn>,
    in_addrs: Vec<(usize, (usize, usize))>,
    out_addrs: Vec<(usize, usize)>,
) -> Circuit {
    Circuit {
        id,
        name: Some(name.to_string()),
        inputs: in_addrs.len(),
        outputs: out_addrs.len(),
        sub: Some(SubCircuit { components, connections, in_addrs, out_addrs }),
        extra: ExtraInfo::new(id),
    }
}

/// out = not (a and b), with the inputs and the output as primitives.
fn nand_block(base: usize) -> Circuit {
    composed(
        base + 10,
        "NandBlock",
        vec![
            prim(base + 1, "InA", Primitive::Input { bits: 1 }, 1, 1),
            prim(base + 2, "InB", Primitive::Input { bits: 1 }, 1, 1),
            prim(base + 3, "And", Primitive::AndGate, 2, 1),
            prim(base + 4, "Not", Primitive::NotGate, 1, 1),
        ],
        vec![Conn::new(0, 0, 2, 0), Conn::new(1, 0, 2, 1), Conn::new(2, 0, 3, 0)],
        vec![(0, (0, 0)), (1, (1, 0))],
        vec![(3, 0)],
    )
}

/// Two switches feeding a nand block whose output goes to an output.
fn top() -> Circuit {
    composed(
        100,
        "Top",
        vec![
            prim(50, "S1", Primitive::Switch, 0, 1),
            prim(51, "S2", Primitive::Switch, 0, 1),
            nand_block(0),
            prim(52, "Out", Primitive::Output { bits: 1 }, 1, 1),
        ],
        vec![Conn::new(0, 0, 2, 0), Conn::new(1, 0, 2, 1), Conn::new(2, 0, 3, 0)],
        vec![],
        vec![(3, 0)],
    )
}

#[test]
fn reindex_numbers_primitives_depth_first() {
    let mut c = top();
    let (next, config) = reindex_connections(&mut c, 0).unwrap();
    assert_eq!(next, 7);
    let sub = c.sub.as_ref().unwrap();
    // S1 = 0, S2 = 1, InA = 2, InB = 3, And = 4, Not = 5, Out = 6.
    assert_eq!(
        sub.connections,
        vec![Conn::new(0, 0, 2, 0), Conn::new(1, 0, 3, 0), Conn::new(5, 0, 6, 0)]
    );
    assert_eq!(sub.out_addrs, vec![(6, 0)]);
    let inner = sub.components[2].sub.as_ref().unwrap();
    assert_eq!(
        inner.connections,
        vec![Conn::new(2, 0, 4, 0), Conn::new(3, 0, 4, 1), Conn::new(4, 0, 5, 0)]
    );
    assert_eq!(inner.in_addrs, vec![(0, (2, 0)), (1, (3, 0))]);
    assert_eq!(inner.out_addrs, vec![(5, 0)]);
    match config {
        NestedConfig::Compose(name, id, subs, ins, outs) => {
            assert_eq!(name, "Top");
            assert_eq!(id, 100);
            assert_eq!(subs.len(), 4);
            assert!(ins.is_empty());
            assert_eq!(outs, vec![(6, 0)]);
            match &subs[&10] {
                NestedConfig::Compose(_, _, _, ins, outs) => {
                    assert_eq!(ins, &vec![(2, 0), (3, 0)]);
                    assert_eq!(outs, &vec![(5, 0)]);
                }
                _ => panic!("the block is composed"),
            }
            match &subs[&50] {
                NestedConfig::Single(name, _, ins, outs) => {
                    assert_eq!(name, "S1");
                    assert!(ins.is_empty());
                    assert_eq!(outs, &vec![(0, 0)]);
                }
                _ => panic!("a switch is primitive"),
            }
        }
        _ => panic!("top is composed"),
    }
}

#[test]
fn fix_points_inputs_at_their_sources() {
    let unindexed = top();
    let mut c = top();
    let (_, mut config) = reindex_connections(&mut c, 0).unwrap();
    fix_inputs_data_addrs(&unindexed, &mut config);
    match config {
        NestedConfig::Compose(_, _, subs, _, _) => match &subs[&10] {
            NestedConfig::Compose(_, _, inner, _, _) => {
                assert_eq!(inner[&1].get_output_addr(0), (0, 0));
                assert_eq!(inner[&2].get_output_addr(0), (1, 0));
            }
            _ => panic!("the block is composed"),
        },
        _ => panic!("top is composed"),
    }
}

#[test]
fn flat_comp_lists_primitives_and_connections() {
    let mut c = top();
    reindex_connections(&mut c, 0).unwrap();
    let (comps, conns) = flat_comp(&c);
    let names: Vec<&str> = comps.iter().map(|p| p.name.as_str()).collect();
    assert_eq!(names, vec!["Switch", "Switch", "Input", "Input", "And", "Not", "Output"]);
    assert_eq!(conns.len(), 6);
    assert_eq!(conns[0], Conn::new(0, 0, 2, 0));
    assert_eq!(conns[3], Conn::new(2, 0, 4, 0));
}

#[test]
fn flatten_component_records_structure() {
    let f = FlattenComponent::new(top()).unwrap();
    assert_eq!(f.components.len(), 7);
    assert_eq!(f.connections[4], vec![Conn::new(4, 0, 5, 0)]);
    assert_eq!(f.connections[6], vec![]);
    assert_eq!(f.deps[4], vec![2, 3]);
    assert_eq!(f.inv_deps[0], vec![2]);
    assert_eq!(f.id_to_idx[&3], 4);
    assert_eq!(f.comp_by_id(52).name, "Output");
    assert_eq!(f.get_input_status_at(3, 1), Ok(Data::low()));
    assert_eq!(
        f.get_input_status_at(3, 5),
        Err(DataRequestError::InvalidInputPortIndex(5))
    );
    assert_eq!(
        f.get_output_status_at(999, 0),
        Err(DataRequestError::InvalidComponentId(ComponentRequestError::InvalidComponentId(999)))
    );
    let (ins, outs) = f.get_status_by_id(4);
    assert_eq!((ins.len(), outs.len()), (1, 1));
    let (ins, outs) = f.get_status(&[10], None).unwrap();
    assert_eq!(ins, vec![Data::low(), Data::low()]);
    assert_eq!(outs, vec![Data::low()]);
    assert_eq!(
        f.get_status(&[77], None),
        Err(DataRequestError::InvalidComponentId(ComponentRequestError::InvalidComponentId(77)))
    );
}

#[test]
fn simulation_passes_settle_the_circuit() {
    let mut f = FlattenComponent::new(top()).unwrap();
    // Both switches high.
    f.components[0].outputs[0] = Data::high();
    f.components[1].outputs[0] = Data::high();
    let mut state = SimState::new(f);
    assert!(state.to_upd.is_empty());
    assert!(!state.running && !state.end);
    let mut list: Vec<usize> = (0..7).collect();
    let mut passes = 0;
    while !list.is_empty() && passes < 20 {
        list = state.run_pass(&list, 0);
        passes += 1;
    }
    assert!(list.is_empty());
    // not (1 and 1) = 0
    assert_eq!(state.comp.components[6].outputs[0], Data::low());
    // Drop one switch: the output rises.
    state.comp.components[0].outputs[0] = Data::low();
    let mut list = vec![0];
    let mut passes = 0;
    while !list.is_empty() && passes < 20 {
        list = state.run_pass(&list, 0);
        passes += 1;
    }
    assert_eq!(state.comp.components[6].outputs[0], Data::high());
}

#[test]
fn constants_and_clocks_are_always_updated() {
    let c = composed(
        9,
        "K",
        vec![
            prim(1, "C", Primitive::Const { value: Data::high() }, 0, 1),
            prim(2, "Clk", Primitive::Clock { period: 10 }, 0, 1),
            prim(3, "N", Primitive::NotGate, 1, 1),
        ],
        vec![Conn::new(1, 0, 2, 0)],
        vec![],
        vec![],
    );
    let f = FlattenComponent::new(c).unwrap();
    let mut state = SimState::new(f);
    assert_eq!(state.to_upd, vec![0, 1]);
    // At time 15 the clock is high; the NOT gate is scheduled.
    let next = state.run_pass(&vec![0, 1], 15);
    assert_eq!(state.comp.components[1].outputs[0], Data::high());
    assert_eq!(next, vec![0, 1, 2]);
    // The constant left the list; the clock stays.
    assert_eq!(state.to_upd, vec![1]);
}

#[test]
fn a_wide_wire_into_a_gate_reads_as_one_bit() {
    let c = composed(
        9,
        "W",
        vec![
            prim(1, "Two", Primitive::Const { value: Data::new(2, 2) }, 0, 1),
            prim(2, "One", Primitive::Const { value: Data::high() }, 0, 1),
            prim(3, "A", Primitive::AndGate, 2, 1),
        ],
        vec![Conn::new(0, 0, 2, 0), Conn::new(1, 0, 2, 1)],
        vec![],
        vec![],
    );
    let f = FlattenComponent::new(c).unwrap();
    assert!(f.check_sim_ok());
    let mut state = SimState::new(f);
    let mut list = state.to_upd.clone();
    let mut passes = 0;
    while !list.is_empty() && passes < 5 {
        list = state.run_pass(&list, 0);
        passes += 1;
    }
    assert_eq!(state.comp.components[2].inputs[0], Data::new(2, 2));
    assert_eq!(state.comp.components[2].outputs[0].value, 1);
}

#[test]
fn the_loop_stops_pauses_or_runs_a_pass() {
    let c = composed(9, "E", vec![prim(1, "N", Primitive::NotGate, 1, 1)], vec![], vec![], vec![]);
    let mut state = SimState::new(FlattenComponent::new(c).unwrap());
    state.running = true;
    state.end = false;
    assert_eq!(state.next_action(false, 0), SimAction::Stop);
    assert_eq!(state.next_action(false, 3), SimAction::Pass);
    assert_eq!(state.next_action(true, 0), SimAction::Pass);
    state.running = false;
    assert_eq!(state.next_action(true, 0), SimAction::Pause);
    state.end = true;
    assert_eq!(state.next_action(true, 2), SimAction::Stop);
}

#[test]
fn a_not_gate_takes_the_width_of_what_feeds_it() {
    // A two-bit constant through a NOT gate into an AND gate: the widths do
    // not matter to the AND gate.
    let into_gate = composed(
        9,
        "N",
        vec![
            prim(1, "Two", Primitive::Const { value: Data::new(2, 2) }, 0, 1),
            prim(2, "N", Primitive::NotGate, 1, 1),
            prim(3, "A", Primitive::AndGate, 1, 1),
        ],
        vec![Conn::new(0, 0, 1, 0), Conn::new(1, 0, 2, 0)],
        vec![],
        vec![],
    );
    let f = FlattenComponent::new(into_gate).unwrap();
    assert!(f.check_sim_ok());
    let mut state = SimState::new(f);
    let mut list = state.to_upd.clone();
    let mut passes = 0;
    while !list.is_empty() && passes < 5 {
        list = state.run_pass(&list, 0);
        passes += 1;
    }
    // not 0b10 over two bits is 0b01.
    assert_eq!(state.comp.components[1].outputs[0], Data::new(1, 2));
    assert_eq!(state.comp.components[2].outputs[0].value, 1);

    // The same NOT gate feeding a one-bit output would hand it two bits.
    let into_output = composed(
        9,
        "O",
        vec![
            prim(1, "Two", Primitive::Const { value: Data::new(2, 2) }, 0, 1),
            prim(2, "N", Primitive::NotGate, 1, 1),
            prim(3, "O", Primitive::Output { bits: 1 }, 1, 1),
        ],
        vec![Conn::new(0, 0, 1, 0), Conn::new(1, 0, 2, 0)],
        vec![],
        vec![],
    );
    assert!(!FlattenComponent::new(into_output).unwrap().check_sim_ok());
}

#[test]
fn a_splitter_reads_the_low_bits_of_a_wider_value() {
    let wide = composed(
        9,
        "S",
        vec![
            prim(1, "Three", Primitive::Const { value: Data::new(0b110, 3) }, 0, 1),
            prim(2, "Sp", Primitive::Splitter { bits: 2 }, 1, 2),
        ],
        vec![Conn::new(0, 0, 1, 0)],
        vec![],
        vec![],
    );
    let f = FlattenComponent::new(wide).unwrap();
    assert!(f.check_sim_ok());
    let mut state = SimState::new(f);
    let mut list = state.to_upd.clone();
    let mut passes = 0;
    while !list.is_empty() && passes < 5 {
        list = state.run_pass(&list, 0);
        passes += 1;
    }
    assert_eq!(state.comp.components[1].outputs[0].value, 0);
    assert_eq!(state.comp.components[1].outputs[1].value, 1);

    let narrow = composed(
        9,
        "S",
        vec![
            prim(1, "One", Primitive::Const { value: Data::high() }, 0, 1),
            prim(2, "Sp", Primitive::Splitter { bits: 2 }, 1, 2),
        ],
        vec![Conn::new(0, 0, 1, 0)],
        vec![],
        vec![],
    );
    assert!(!FlattenComponent::new(narrow).unwrap().check_sim_ok());
}
