//! The services that the request handlers are written against.
pub mod message;
pub mod message_state;
