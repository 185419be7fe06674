pub mod bit;
pub mod errors;
pub mod flatten;
pub mod primitives;
pub mod reindex;
pub mod simulator;
pub mod check;
