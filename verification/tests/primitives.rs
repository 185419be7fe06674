use logix::sim::primitives::data::Data;
use logix::sim::primitives::primitive::PrimitiveComponent;

fn check_single_output(mut comp: PrimitiveComponent, truth_table: Vec<(Vec<Data>, Data)>) {
    for (inputs, output) in truth_table {
        for (i, input) in inputs.iter().enumerate() {
            comp.set_input(i, *input);
        }
        comp.update(0);
        assert_eq!(comp.outputs[0], output, "Case: {:?} -> {:?}", inputs, output);
    }
}

#[test]
fn primitives_test_and_gate() {
    let comp = PrimitiveComponent::and_gate(0, 2);
    let truth_table = vec![
        (vec![Data::high(), Data::high()], Data::high()),
        (vec![Data::high(), Data::low()], Data::low()),
        (vec![Data::low(), Data::high()], Data::low()),
        (vec![Data::low(), Data::low()], Data::low()),
    ];
    check_single_output(comp, truth_table);
}

#[test]
fn primitives_test_or_gate() {
    let comp = PrimitiveComponent::or_gate(0, 2);
    let truth_table = vec![
        (vec![Data::high(), Data::high()], Data::high()),
        (vec![Data::high(), Data::low()], Data::high()),
        (vec![Data::low(), Data::high()], Data::high()),
        (vec![Data::low(), Data::low()], Data::low()),
    ];
    check_single_output(comp, truth_table);
}

#[test]
fn primitives_test_nand_gate() {
    let comp = PrimitiveComponent::nand_gate(0, 2);
    let truth_table = vec![
        (vec![Data::high(), Data::high()], Data::low()),
        (vec![Data::high(), Data::low()], Data::high()),
        (vec![Data::low(), Data::high()], Data::high()),
        (vec![Data::low(), Data::low()], Data::high()),
    ];
    check_single_output(comp, truth_table);
}

#[test]
fn primitives_test_nor_gate() {
    let comp = PrimitiveComponent::nor_gate(0, 2);
    let truth_table = vec![
        (vec![Data::high(), Data::high()], Data::low()),
        (vec![Data::high(), Data::low()], Data::low()),
        (vec![Data::low(), Data::high()], Data::low()),
        (vec![Data::low(), Data::low()], Data::high()),
    ];
    check_single_output(comp, truth_table);
}

#[test]
fn primitives_test_xor_gate() {
    let comp = PrimitiveComponent::xor_gate(0, 2);
    let truth_table = vec![
        (vec![Data::high(), Data::high()], Data::low()),
        (vec![Data::high(), Data::low()], Data::high()),
        (vec![Data::low(), Data::high()], Data::high()),
        (vec![Data::low(), Data::low()], Data::low()),
    ];
    check_single_output(comp, truth_table);
}

#[test]
fn primitives_test_not_gate() {
    let comp = PrimitiveComponent::not_gate(0);
    let truth_table = vec![(vec![Data::high()], Data::low()), (vec![Data::low()], Data::high())];
    check_single_output(comp, truth_table);
}
