use vstd::prelude::*;

use crate::components::composed_component::ComposedComponent;
use crate::components::primitives::and_gate::AndGate;
use crate::components::primitives::clock::Clock;
use crate::components::primitives::constant::Const;
use crate::components::primitives::nand_gate::NandGate;
use crate::components::primitives::nor_gate::NorGate;
use crate::components::primitives::not_gate::NotGate;
use crate::components::primitives::or_gate::OrGate;
use crate::components::primitives::xor_gate::XorGate;

verus! {

/// A component could not be parsed.
#[derive(Debug, Clone, Copy, PartialEq, Eq, Structural)]
pub struct ParseError;

impl Default for ParseError {
    fn default() -> (e: Self)
        ensures
            e == ParseError,
    {
        ParseError
    }
}

pub type ParseResult<T> = Result<T, ParseError>;

/// Something that reads components out of values of type `T`; implemented
/// by users for their own formats.
pub trait CompParser<T> {
    fn parse_not_gate(obj: T) -> ParseResult<NotGate>;

    fn parse_and_gate(obj: T) -> ParseResult<AndGate>;

    fn parse_or_gate(obj: T) -> ParseResult<OrGate>;

    fn parse_nand_gate(obj: T) -> ParseResult<NandGate>;

    fn parse_nor_gate(obj: T) -> ParseResult<NorGate>;

    fn parse_xor_gate(obj: T) -> ParseResult<XorGate>;

    fn parse_clock(obj: T) -> ParseResult<Clock>;

    fn parse_const(obj: T) -> ParseResult<Const>;

    fn parse_composed(obj: T) -> ParseResult<ComposedComponent>;
}

} // verus!
