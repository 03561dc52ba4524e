pub mod chain;
pub mod counts;
pub mod query;
pub mod segments;
pub mod store;
