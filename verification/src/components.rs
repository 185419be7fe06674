pub mod component;
pub mod primitives;
pub mod composed_component;
