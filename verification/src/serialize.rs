pub mod json;
pub mod round_trip;
