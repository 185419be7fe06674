use vstd::prelude::*;

use crate::circuit::Circuit;
use crate::sim::primitives::data::Data;
use crate::sim::primitives::primitive::{ExtraInfo, Primitive};
use crate::text::{dec_string, dec_text};

verus! {

/// The name a primitive circuit gets: the primitive written as Rust writes
/// it for debugging, such as `AndGate` or `Input { bits: 1 }`.
pub open spec fn primitive_text(p: Primitive) -> Seq<char> {
    match p {
        Primitive::AndGate => "AndGate"@,
        Primitive::OrGate => "OrGate"@,
        Primitive::NotGate => "NotGate"@,
        Primitive::NandGate => "NandGate"@,
        Primitive::NorGate => "NorGate"@,
        Primitive::XorGate => "XorGate"@,
        Primitive::Switch => "Switch"@,
        Primitive::Input { bits } => "Input { bits: "@ + dec_text(bits as nat) + " }"@,
        Primitive::Output { bits } => "Output { bits: "@ + dec_text(bits as nat) + " }"@,
        Primitive::Splitter { bits } => "Splitter { bits: "@ + dec_text(bits as nat) + " }"@,
        Primitive::Joiner { bits } => "Joiner { bits: "@ + dec_text(bits as nat) + " }"@,
        Primitive::Clock { period } => "Clock { period: "@ + dec_text(period as nat) + " }"@,
        Primitive::Const { value } => "Const { value: Data { value: "@ + dec_text(value.value as nat)
            + ", size: "@ + dec_text(value.size as nat) + " } }"@,
    }
}

fn wrap(prefix: &str, n: u128, suffix: &str) -> (s: String)
    ensures
        s@ == prefix@ + dec_text(n as nat) + suffix@,
{
    let mut s = String::from_str(prefix);
    let d = dec_string(n);
    s.append(d.as_str());
    s.append(suffix);
    s
}

pub fn primitive_string(p: &Primitive) -> (s: String)
    ensures
        s@ == primitive_text(*p),
{
    match p {
        Primitive::AndGate => String::from_str("AndGate"),
        Primitive::OrGate => String::from_str("OrGate"),
        Primitive::NotGate => String::from_str("NotGate"),
        Primitive::NandGate => String::from_str("NandGate"),
        Primitive::NorGate => String::from_str("NorGate"),
        Primitive::XorGate => String::from_str("XorGate"),
        Primitive::Switch => String::from_str("Switch"),
        Primitive::Input { bits } => wrap("Input { bits: ", *bits as u128, " }"),
        Primitive::Output { bits } => wrap("Output { bits: ", *bits as u128, " }"),
        Primitive::Splitter { bits } => wrap("Splitter { bits: ", *bits as u128, " }"),
        Primitive::Joiner { bits } => wrap("Joiner { bits: ", *bits as u128, " }"),
        Primitive::Clock { period } => wrap("Clock { period: ", *period, " }"),
        Primitive::Const { value } => {
            let mut s = wrap("Const { value: Data { value: ", value.value as u128, ", size: ");
            let d = dec_string(value.size as u128);
            s.append(d.as_str());
            s.append(" } }");
            s
        },
    }
}

/// `c` is the primitive circuit of kind `p` with id `id` and the given numbers
/// of inputs and outputs, named after `p`.
pub open spec fn prim_circuit(c: Circuit, id: usize, p: Primitive, ins: nat, outs: nat) -> bool {
    &&& c.id == id
    &&& c.name matches Some(n) && n@ == primitive_text(p)
    &&& c.inputs == ins
    &&& c.outputs == outs
    &&& c.sub is None
    &&& c.extra == ExtraInfo { id, primitive: Some(p) }
}

fn base_component_extra(id: usize, in_count: usize, out_count: usize, p: Primitive) -> (c: Circuit)
    ensures
        prim_circuit(c, id, p, in_count as nat, out_count as nat),
{
    let name = primitive_string(&p);
    Circuit {
        id,
        name: Some(name),
        inputs: in_count,
        outputs: out_count,
        sub: None,
        extra: ExtraInfo::from_primitive(id, p),
    }
}

pub fn not_gate(id: usize) -> (c: Circuit)
    ensures
        prim_circuit(c, id, Primitive::NotGate, 1, 1),
{
    base_component_extra(id, 1, 1, Primitive::NotGate)
}

pub fn and_gate(id: usize, in_count: usize) -> (c: Circuit)
    ensures
        prim_circuit(c, id, Primitive::AndGate, in_count as nat, 1),
{
    base_component_extra(id, in_count, 1, Primitive::AndGate)
}

pub fn or_gate(id: usize, in_count: usize) -> (c: Circuit)
    ensures
        prim_circuit(c, id, Primitive::OrGate, in_count as nat, 1),
{
    base_component_extra(id, in_count, 1, Primitive::OrGate)
}

pub fn nand_gate(id: usize, in_count: usize) -> (c: Circuit)
    ensures
        prim_circuit(c, id, Primitive::NandGate, in_count as nat, 1),
{
    base_component_extra(id, in_count, 1, Primitive::NandGate)
}

pub fn nor_gate(id: usize, in_count: usize) -> (c: Circuit)
    ensures
        prim_circuit(c, id, Primitive::NorGate, in_count as nat, 1),
{
    base_component_extra(id, in_count, 1, Primitive::NorGate)
}

pub fn xor_gate(id: usize, in_count: usize) -> (c: Circuit)
    ensures
        prim_circuit(c, id, Primitive::XorGate, in_count as nat, 1),
{
    base_component_extra(id, in_count, 1, Primitive::XorGate)
}

/// An input of `bits` bits (a width of at most 255 bits, which is kept
/// modulo 256 beyond that).
pub fn input(id: usize, bits: usize) -> (c: Circuit)
    ensures
        prim_circuit(c, id, Primitive::Input { bits: bits as u8 }, 1, 1),
{
    base_component_extra(id, 1, 1, Primitive::Input { bits: #[verifier::truncate] (bits as u8) })
}

/// An output of `bits` bits (kept modulo 256).
pub fn output(id: usize, bits: usize) -> (c: Circuit)
    ensures
        prim_circuit(c, id, Primitive::Output { bits: bits as u8 }, 1, 1),
{
    base_component_extra(id, 1, 1, Primitive::Output { bits: #[verifier::truncate] (bits as u8) })
}

/// A splitter of a `bits`-bit value into as many one-bit outputs (the width
/// kept modulo 256).
pub fn splitter(id: usize, bits: usize) -> (c: Circuit)
    ensures
        prim_circuit(c, id, Primitive::Splitter { bits: bits as u8 }, 1, bits as nat),
{
    base_component_extra(id, 1, bits, Primitive::Splitter { bits: #[verifier::truncate] (bits as u8) })
}

/// A joiner of `bits` one-bit inputs into one value (the width kept modulo
/// 256).
pub fn joiner(id: usize, bits: usize) -> (c: Circuit)
    ensures
        prim_circuit(c, id, Primitive::Joiner { bits: bits as u8 }, bits as nat, 1),
{
    base_component_extra(id, bits, 1, Primitive::Joiner { bits: #[verifier::truncate] (bits as u8) })
}

/// A clock of period `period` nanoseconds.
pub fn clock(id: usize, period: u128) -> (c: Circuit)
    ensures
        prim_circuit(c, id, Primitive::Clock { period }, 0, 1),
{
    base_component_extra(id, 0, 1, Primitive::Clock { period })
}

/// A constant high bit.
pub fn high_const(id: usize) -> (c: Circuit)
    ensures
        prim_circuit(c, id, Primitive::Const { value: Data { value: 1, size: 1 } }, 0, 1),
{
    base_component_extra(id, 0, 1, Primitive::Const { value: Data::high() })
}

/// A constant low bit.
pub fn low_const(id: usize) -> (c: Circuit)
    ensures
        prim_circuit(c, id, Primitive::Const { value: Data { value: 0, size: 1 } }, 0, 1),
{
    base_component_extra(id, 0, 1, Primitive::Const { value: Data::low() })
}

} // verus!
