//! A broker for the NATS text protocol: the parser of the clients'
//! commands, the router with its subscription index, and the decisions of
//! the handler of a connection. Nothing here does any input or output.

pub mod commands;
pub mod config;
pub mod grammar;
pub mod handlers;
pub mod invariants;
pub mod json;
pub mod parser;
pub mod relation;
pub mod server;
pub mod text;
