pub mod fetch;
pub mod graph;
pub mod lint;
pub mod new;
pub mod scope;
pub mod search;
