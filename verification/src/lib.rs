//! Committee-bound HotStuff consensus: votes, certificates, block storage,
//! view synchronisation and recovery.

pub mod bytes;
pub mod clock;
pub mod config;
pub mod consensus;
pub mod crypto;
pub mod node;
pub mod table;
pub mod text;
pub mod types;
