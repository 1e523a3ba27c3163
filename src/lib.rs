//! A consensus observer: follows ordered blocks, payloads and commit
//! decisions from one upstream peer and decides what to hand to execution.

pub mod laws;
pub mod model;
pub mod module_storage;
pub mod observer;
pub mod ordered_blocks;
pub mod payload_store;
pub mod pending_blocks;
pub mod subscription;
pub mod types;
pub mod wallet;
