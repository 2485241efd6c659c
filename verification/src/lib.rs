//! Servers for a series of small network protocols, with their parsing,
//! encoding and decision logic verified.

pub mod text;
pub mod protocol;
pub mod utils;
pub mod client;
pub mod db;
pub mod order;
pub mod server;
pub mod kv;
pub mod prime;
pub mod proxy;
pub mod chat;
