pub mod boolean;
pub mod error;
pub mod sketch;
