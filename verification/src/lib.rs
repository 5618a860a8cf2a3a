//! Core logic of a manager for ephemeral SFTP file-server containers.
//!
//! The library derives authoritative server records by joining the container
//! runtime's reported state with a local credential store, resolves which
//! local network address a new server should bind to, and gates every
//! lifecycle operation on an ownership check, so that only containers of the
//! fixed managed image are ever touched. All interaction with the runtime and
//! with the file system happens outside this crate: the functions here take
//! the raw command output as arguments and are verified to parse and decide
//! exactly as specified.

pub mod creds;
pub mod gateway;
pub mod lifecycle;
pub mod listing;
pub mod network;
pub mod text;
