//! A small end-to-end chat server library: user accounts with password
//! hashes and login tokens, per-user message mailboxes kept in key-value
//! tables, and public-key exchange between users.

pub mod config;
pub mod database;
pub mod service;
pub mod utility;
pub mod api;
