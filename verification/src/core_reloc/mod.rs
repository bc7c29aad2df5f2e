pub mod address;
pub mod chain;
pub mod error;
pub mod gep;
pub mod known;
pub mod pass;
pub mod path;
pub mod rewrite;
pub mod seed;
pub mod synthetic;
pub mod types;
