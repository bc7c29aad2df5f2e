pub mod abbrev;
pub mod cursor;
pub mod encoding;
pub mod error;
pub mod extension;
pub mod identification;
