pub mod bit;
pub mod data;
pub mod prim_program;
pub mod pasm;
pub mod primitive;
