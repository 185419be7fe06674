use vstd::prelude::*;

use crate::components::composed_component::ComposedComponent;
use crate::components::primitives::and_gate::AndGate;
use crate::components::primitives::clock::Clock;
use crate::components::primitives::constant::Const;
use crate::components::primitives::nand_gate::NandGate;
use crate::components::primitives::nor_gate::NorGate;
use crate::components::primitives::not_gate::NotGate;
use crate::components::primitives::or_gate::OrGate;
use crate::components::primitives::xor_gate::XorGate;

verus! {

/// Something that turns each kind of component into a `T`; implemented by
/// users for their own outputs.
pub trait CompVisitor<T> {
    fn visit_not_gate(comp: &NotGate) -> T;

    fn visit_and_gate(comp: &AndGate) -> T;

    fn visit_or_gate(comp: &OrGate) -> T;

    fn visit_nand_gate(comp: &NandGate) -> T;

    fn visit_nor_gate(comp: &NorGate) -> T;

    fn visit_xor_gate(comp: &XorGate) -> T;

    fn visit_clock(comp: &Clock) -> T;

    fn visit_const(comp: &Const) -> T;

    fn visit_composed(comp: &ComposedComponent) -> T;
}

} // verus!
