//! A RESP2 key-value store: the wire protocol, the command set, the
//! expiring key space and the append-only log replay.

pub mod decimal;
pub mod text;
pub mod resp;
pub mod resp_laws;
pub mod storage;
pub mod storage_laws;
pub mod command;
pub mod aof;
pub mod connection;
pub mod server;
pub mod command_laws;
pub mod aof_laws;
