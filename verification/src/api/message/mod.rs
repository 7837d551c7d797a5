pub mod recv;
