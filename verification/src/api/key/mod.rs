pub mod get;
pub mod send;
