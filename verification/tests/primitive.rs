use logix::sim::primitives::data::Data;
use logix::sim::primitives::primitive::PrimitiveComponent;

fn check_truth_table(mut comp: PrimitiveComponent, truth_table: Vec<(Vec<Data>, Vec<Data>)>) {
    for (inputs, outputs) in truth_table {
        for (i, input) in inputs.iter().enumerate() {
            comp.set_input(i, *input);
        }
        comp.update(0);
        for (i, output) in outputs.iter().enumerate() {
            assert_eq!(*output, comp.outputs[i], "Case: {:?} -> {:?}", inputs, output);
        }
    }
}

#[test]
fn primitive_test_and_gate() {
    let comp = PrimitiveComponent::and_gate(0, 2);
    let truth_table = vec![
        (vec![Data::high(), Data::high()], vec![Data::high()]),
        (vec![Data::high(), Data::low()], vec![Data::low()]),
        (vec![Data::low(), Data::high()], vec![Data::low()]),
        (vec![Data::low(), Data::low()], vec![Data::low()]),
    ];
    check_truth_table(comp, truth_table);
}

#[test]
fn primitive_test_or_gate() {
    let comp = PrimitiveComponent::or_gate(0, 2);
    let truth_table = vec![
        (vec![Data::high(), Data::high()], vec![Data::high()]),
        (vec![Data::high(), Data::low()], vec![Data::high()]),
        (vec![Data::low(), Data::high()], vec![Data::high()]),
        (vec![Data::low(), Data::low()], vec![Data::low()]),
    ];
    check_truth_table(comp, truth_table);
}

#[test]
fn primitive_test_nand_gate() {
    let comp = PrimitiveComponent::nand_gate(0, 2);
    let truth_table = vec![
        (vec![Data::high(), Data::high()], vec![Data::low()]),
        (vec![Data::high(), Data::low()], vec![Data::high()]),
        (vec![Data::low(), Data::high()], vec![Data::high()]),
        (vec![Data::low(), Data::low()], vec![Data::high()]),
    ];
    check_truth_table(comp, truth_table);
}

#[test]
fn primitive_test_nor_gate() {
    let comp = PrimitiveComponent::nor_gate(0, 2);
    let truth_table = vec![
        (vec![Data::high(), Data::high()], vec![Data::low()]),
        (vec![Data::high(), Data::low()], vec![Data::low()]),
        (vec![Data::low(), Data::high()], vec![Data::low()]),
        (vec![Data::low(), Data::low()], vec![Data::high()]),
    ];
    check_truth_table(comp, truth_table);
}

#[test]
fn primitive_test_xor_gate() {
    let comp = PrimitiveComponent::xor_gate(0, 2);
    let truth_table = vec![
        (vec![Data::high(), Data::high()], vec![Data::low()]),
        (vec![Data::high(), Data::low()], vec![Data::high()]),
        (vec![Data::low(), Data::high()], vec![Data::high()]),
        (vec![Data::low(), Data::low()], vec![Data::low()]),
    ];
    check_truth_table(comp, truth_table);
}

#[test]
fn primitive_test_not_gate() {
    let comp = PrimitiveComponent::not_gate(0);
    let truth_table = vec![
        (vec![Data::high()], vec![Data::low()]),
        (vec![Data::low()], vec![Data::high()]),
    ];
    check_truth_table(comp, truth_table);
}

#[test]
fn test_input() {
    let comp = PrimitiveComponent::input(0, 1);
    let truth_table = vec![
        (vec![Data::high()], vec![Data::high()]),
        (vec![Data::low()], vec![Data::low()]),
    ];
    check_truth_table(comp, truth_table);
}

#[test]
fn test_output() {
    let comp = PrimitiveComponent::output(0, 1);
    let truth_table = vec![
        (vec![Data::high()], vec![Data::high()]),
        (vec![Data::low()], vec![Data::low()]),
    ];
    check_truth_table(comp, truth_table);
}

#[test]
fn test_splitter() {
    let comp = PrimitiveComponent::splitter(0, 4);
    let truth_table = vec![
        (
            vec![Data::new(0b1110, 4)],
            vec![Data::new(0b0, 1), Data::new(0b1, 1), Data::new(0b1, 1), Data::new(0b1, 1)],
        ),
        (
            vec![Data::new(0b1111, 4)],
            vec![Data::new(0b1, 1), Data::new(0b1, 1), Data::new(0b1, 1), Data::new(0b1, 1)],
        ),
        (
            vec![Data::new(0b0000, 4)],
            vec![Data::new(0b0, 1), Data::new(0b0, 1), Data::new(0b0, 1), Data::new(0b0, 1)],
        ),
    ];
    check_truth_table(comp, truth_table);
}

#[test]
fn test_joiner() {
    let comp = PrimitiveComponent::joiner(0, 4);
    let truth_table = vec![
        (
            vec![Data::new(0b0, 1), Data::new(0b1, 1), Data::new(0b1, 1), Data::new(0b1, 1)],
            vec![Data::new(14, 4)],
        ),
        (
            vec![Data::new(0b1, 1), Data::new(0b1, 1), Data::new(0b1, 1), Data::new(0b1, 1)],
            vec![Data::new(15, 4)],
        ),
        (
            vec![Data::new(0b0, 1), Data::new(0b0, 1), Data::new(0b0, 1), Data::new(0b0, 1)],
            vec![Data::new(0, 4)],
        ),
        (
            vec![Data::new(0b1, 1), Data::new(0b0, 1), Data::new(0b1, 1), Data::new(0b0, 1)],
            vec![Data::new(5, 4)],
        ),
    ];
    check_truth_table(comp, truth_table);
}
