pub mod ast;
pub mod builder;
pub mod primitive_builders;
