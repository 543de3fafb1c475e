//! What a node does with its durable data before it takes part in consensus,
//! and the loop of the single-process server.

pub mod block_loop;
pub mod bootstrap;
pub mod notices;
pub mod replay;
