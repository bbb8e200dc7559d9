//! A small authoritative DNS server's logic: zone files read into records,
//! and records written as answers in DNS wire format.
pub mod text;
pub mod answer;
pub mod register;
pub mod validate;
pub mod zone;
pub mod tokens;
pub mod server;
pub mod laws;
