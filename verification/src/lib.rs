pub mod engine;
pub mod parser;
pub mod point;
pub mod rules;
