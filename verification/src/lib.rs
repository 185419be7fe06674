//! Logix: structures to describe digital circuits and a simulator for them.
pub mod circuit;
pub mod component;
pub mod components;
pub mod gui;
pub mod lang;
pub mod parser;
pub mod serialize;
pub mod sim;
pub mod text;
pub mod visitor;
