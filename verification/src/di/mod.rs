pub mod coverage;
pub mod edit;
pub mod fields;
pub mod graph;
pub mod kind;
pub mod linkage;
pub mod module;
pub mod name;
pub mod replay;
pub mod sanitizer;
