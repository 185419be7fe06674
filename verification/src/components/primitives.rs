pub mod and_gate;
pub mod clock;
pub mod constant;
pub mod nand_gate;
pub mod nor_gate;
pub mod not_gate;
pub mod or_gate;
pub mod primitive;
pub mod xor_gate;
